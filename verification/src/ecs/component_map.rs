//! Maps entities to component data.

use vstd::prelude::*;
use super::entity::{Entity, EntityManager, index_of};
use super::entity;

verus! {

// data of a component, or a link to the next free entry.
enum Entry<T> {
    Full(FullEntry<T>),
    Empty(Option<usize>),
}

struct FullEntry<T> {
    entity: Entity,
    data: T,
}

impl<T> Entry<T> {
    // Attempts to take the data out of this entry.
    // Replaces this entry with an empty one with no next index.
    fn take(&mut self) -> (r: Option<FullEntry<T>>)
        ensures
            match *old(self) {
                Entry::Full(full) => r == Some(full) && *final(self) == Entry::<T>::Empty(None),
                Entry::Empty(_) => r is None && *final(self) == *old(self),
            },
    {
        let mut entry: Entry<T> = Entry::Empty(None);
        core::mem::swap(self, &mut entry);
        match entry {
            Entry::Full(full) => Some(full),
            Entry::Empty(next) => {
                *self = Entry::Empty(next);
                None
            },
        }
    }
}

/// Maps entities to component data.
pub struct ComponentMap<T> {
    indices: Vec<Option<usize>>,
    data: Vec<Entry<T>>,
    // fifo deque / linked-list of free
    // indices.
    first_free: Option<usize>,
    last_free: Option<usize>,
    free: Ghost<Seq<usize>>,
}

// the link that leads to entry `i` of the list.
spec fn link(free: Seq<usize>, i: int) -> Option<usize> {
    if 0 <= i < free.len() {
        Some(free[i])
    } else {
        None
    }
}

// the free list is linked through the entries.
spec fn linked<T>(data: Seq<Entry<T>>, free: Seq<usize>) -> bool {
    &&& free.no_duplicates()
    &&& forall|i: int|
        0 <= i < free.len() ==> {
            &&& (#[trigger] free[i]) < data.len()
            &&& data[free[i] as int] == Entry::<T>::Empty(link(free, i + 1))
        }
}

// each entity's data has an entry of its own, which an index leads to from the entity's slot.
spec fn placed<T>(indices: Seq<Option<usize>>, data: Seq<Entry<T>>) -> bool {
    &&& forall|i: int|
        0 <= i < indices.len() && (#[trigger] indices[i]) is Some ==> {
            &&& indices[i]->0 < data.len()
            &&& data[indices[i]->0 as int] is Full
            &&& data[indices[i]->0 as int]->Full_0.entity.index() == i
        }
    &&& forall|i: int, j: int|
        0 <= i < j < indices.len() && (#[trigger] indices[i]) is Some ==> indices[i]
            != #[trigger] indices[j]
}

// a full entry is not on the free list.
proof fn lemma_full_apart<T>(data: Seq<Entry<T>>, free: Seq<usize>, k: int)
    requires
        linked(data, free),
        0 <= k < data.len(),
        data[k] is Full,
    ensures
        forall|i: int| 0 <= i < free.len() ==> #[trigger] free[i] != k,
{
}

impl<T> ComponentMap<T> {
    /// The data by the entities it is stored for.
    pub closed spec fn contents(&self) -> Map<Entity, T> {
        Map::new(
            |e: Entity|
                {
                    &&& e.index() < self.indices@.len()
                    &&& self.indices@[e.index()] is Some
                    &&& self.full_at(e.index()).entity == e
                },
            |e: Entity| self.full_at(e.index()).data,
        )
    }

    // the entry that the index of a slot leads to.
    spec fn full_at(&self, slot: int) -> FullEntry<T> {
        self.data@[self.indices@[slot]->0 as int]->Full_0
    }

    /// Whether there is data for an entity in the given slot, living or dead.
    pub open spec fn in_use(&self, slot: int) -> bool {
        exists|x: Entity| #[trigger] self.contents().contains_key(x) && x.index() == slot
    }

    /// The data of the entities in other slots.
    pub open spec fn elsewhere(&self, slot: int) -> Map<Entity, T> {
        self.contents().restrict(Set::new(|x: Entity| x.index() != slot))
    }

    // a slot is in use if there is an index for it.
    proof fn lemma_in_use(&self, slot: int)
        requires
            self.wf(),
            0 <= slot < self.slots(),
        ensures
            self.in_use(slot) == (self.indices@[slot] is Some),
    {
        if self.indices@[slot] is Some {
            let x = self.full_at(slot).entity;
            entity::lemma_entity_ext(x, x);
            assert(self.contents().contains_key(x));
        }
    }

    /// The map has data for one entity of each slot at most.
    pub proof fn law_one_entity_per_slot(&self, a: Entity, b: Entity)
        requires
            self.contents().contains_key(a),
            self.contents().contains_key(b),
            a.index() == b.index(),
        ensures
            a == b,
    {
    }

    /// The number of entries, full and free.
    pub closed spec fn entries(&self) -> nat {
        self.data@.len()
    }

    /// The number of free entries.
    pub closed spec fn free_entries(&self) -> nat {
        self.free@.len()
    }

    /// The number of slots that there is an index for.
    pub closed spec fn slots(&self) -> nat {
        self.indices@.len()
    }

    /// The free list and the entries agree.
    pub closed spec fn wf(&self) -> bool {
        &&& linked(self.data@, self.free@)
        &&& placed(self.indices@, self.data@)
        &&& self.first_free == link(self.free@, 0)
        &&& self.last_free == link(self.free@, self.free@.len() - 1)
    }

    /// A map without data.
    pub fn new() -> (r: Self)
        ensures
            r.wf(),
            r.contents() == Map::<Entity, T>::empty(),
            r.entries() == 0,
            r.free_entries() == 0,
            r.slots() == 0,
    {
        let r = ComponentMap {
            indices: Vec::new(),
            data: Vec::new(),
            first_free: None,
            last_free: None,
            free: Ghost(Seq::empty()),
        };
        assert(r.contents() =~= Map::<Entity, T>::empty());
        r
    }

    // Pop the first value from the free list.
    // None if there isn't one.
    fn freelist_pop(&mut self) -> (r: Option<usize>)
        requires
            old(self).wf(),
        ensures
            final(self).wf(),
            final(self).indices == old(self).indices,
            final(self).data == old(self).data,
            match r {
                Some(index) => {
                    &&& 0 < old(self).free@.len()
                    &&& index == old(self).free@[0]
                    &&& final(self).free@ == old(self).free@.drop_first()
                },
                None => old(self).free@.len() == 0 && final(self).free@ == old(self).free@,
            },
    {
        match self.first_free {
            Some(index) => {
                let ghost free = self.free@;
                assert(free[0] == index);
                let next = match &self.data[index] {
                    Entry::Empty(next) => *next,
                    Entry::Full(_) => None,
                };
                self.first_free = next;
                if next.is_none() {
                    self.last_free = None;
                }
                proof {
                    let rest = free.drop_first();
                    self.free = Ghost(rest);
                    assert forall|i: int| 0 <= i < rest.len() implies {
                        &&& (#[trigger] rest[i]) < self.data@.len()
                        &&& self.data@[rest[i] as int] == Entry::<T>::Empty(link(rest, i + 1))
                    } by {
                        assert(rest[i] == free[i + 1]);
                        assert(link(rest, i + 1) == link(free, i + 2));
                    }
                    assert(rest.no_duplicates());
                }
                Some(index)
            },
            None => None,
        }
    }

    // Pushes a free index onto the free list.
    // The data entry for that index is empty already, and ends the list.
    fn freelist_push(&mut self, index: usize)
        requires
            linked(old(self).data@, old(self).free@),
            old(self).first_free == link(old(self).free@, 0),
            old(self).last_free == link(old(self).free@, old(self).free@.len() - 1),
            placed(old(self).indices@, old(self).data@),
            index < old(self).data@.len(),
            old(self).data@[index as int] == Entry::<T>::Empty(None),
            !old(self).free@.contains(index),
        ensures
            final(self).wf(),
            final(self).indices == old(self).indices,
            final(self).free@ == old(self).free@.push(index),
            final(self).data@.len() == old(self).data@.len(),
            forall|k: int|
                0 <= k < old(self).data@.len() && old(self).data@[k] is Full
                    ==> #[trigger] final(self).data@[k] == old(self).data@[k],
    {
        let ghost free = self.free@;
        let ghost data = self.data@;
        match self.last_free {
            Some(last_index) => {
                // pushing onto non-empty list
                assert(free[free.len() - 1] == last_index);
                self.data.set(last_index, Entry::Empty(Some(index)));
            },
            None => {
                // pushing onto empty list.
                self.first_free = Some(index);
            },
        }
        self.last_free = Some(index);
        proof {
            let more = free.push(index);
            self.free = Ghost(more);
            assert(more[free.len() as int] == index);
            assert forall|i: int| 0 <= i < more.len() implies {
                &&& (#[trigger] more[i]) < self.data@.len()
                &&& self.data@[more[i] as int] == Entry::<T>::Empty(link(more, i + 1))
            } by {
                if i < free.len() {
                    assert(more[i] == free[i]);
                    if i < free.len() - 1 {
                        assert(free[i] != free[free.len() - 1]);
                        assert(link(more, i + 1) == link(free, i + 1));
                    }
                } else {
                    if free.len() > 0 {
                        assert(free[free.len() - 1] != index) by {
                            assert(free.contains(free[free.len() - 1]));
                        }
                    }
                }
            }
            assert(more.no_duplicates()) by {
                assert forall|i: int, j: int|
                    0 <= i < more.len() && 0 <= j < more.len() && i != j implies more[i]
                    != more[j] by {
                    if i < free.len() {
                        assert(free.contains(free[i]));
                    }
                    if j < free.len() {
                        assert(free.contains(free[j]));
                    }
                }
            }
        }
    }

    // makes the indices reach to the given slot.
    fn reach(&mut self, len: usize)
        requires
            old(self).wf(),
        ensures
            final(self).wf(),
            final(self).contents() == old(self).contents(),
            final(self).entries() == old(self).entries(),
            final(self).free_entries() == old(self).free_entries(),
            final(self).slots() >= len,
            final(self).slots() >= old(self).slots(),
    {
        while self.indices.len() < len
            invariant
                self.wf(),
                self.contents() == old(self).contents(),
                self.entries() == old(self).entries(),
                self.free_entries() == old(self).free_entries(),
                self.slots() >= old(self).slots(),
            decreases len - self.indices@.len(),
        {
            let ghost before = *self;
            self.indices.push(None);
            proof {
                assert forall|i: int|
                    0 <= i < self.indices@.len() && (#[trigger] self.indices@[i]) is Some implies {
                    &&& self.indices@[i]->0 < self.data@.len()
                    &&& self.data@[self.indices@[i]->0 as int] is Full
                    &&& self.data@[self.indices@[i]->0 as int]->Full_0.entity.index() == i
                } by {
                    assert(before.indices@[i] == self.indices@[i]);
                }
                assert forall|x: Entity| 0 <= #[trigger] x.index() by {
                    entity::lemma_entity_ext(x, x);
                }
                assert(self.contents() =~= before.contents());
            }
        }
    }

    // set the data stored for the entity. Data for another entity in its slot is lost.
    fn set_at(&mut self, e: Entity, data: T)
        requires
            old(self).wf(),
            e.index() < old(self).slots(),
        ensures
            final(self).wf(),
            final(self).slots() == old(self).slots(),
            final(self).contents() == old(self).elsewhere(e.index()).insert(e, data),
            old(self).in_use(e.index()) || old(self).free_entries() == 0
                ==> final(self).free_entries() == old(self).free_entries(),
            !old(self).in_use(e.index()) && 0 < old(self).free_entries()
                ==> final(self).free_entries() == old(self).free_entries() - 1,
            final(self).entries() == if old(self).in_use(e.index()) || 0
                < old(self).free_entries() {
                old(self).entries()
            } else {
                old(self).entries() + 1
            },
    {
        let entity_index: usize = index_of(e) as usize;
        let ghost at = entity_index as int;
        proof {
            self.lemma_in_use(at);
            assert forall|x: Entity| 0 <= #[trigger] x.index() by {
                entity::lemma_entity_ext(x, x);
            }
        }
        let entry = Entry::Full(FullEntry { entity: e, data });
        if let Some(index) = self.indices[entity_index] {
            let ghost old_data = self.data@;
            self.data.set(index, entry);
            proof {
                lemma_full_apart(old_data, self.free@, index as int);
                assert(linked(self.data@, self.free@));
                assert(self.contents() =~= old(self).elsewhere(at).insert(e, data));
            }
        } else if let Some(index) = self.freelist_pop() {
            let ghost free = old(self).free@;
            assert(free[0] == index);
            self.data.set(index, entry);
            self.indices.set(entity_index, Some(index));
            proof {
                let rest = self.free@;
                assert forall|i: int| 0 <= i < rest.len() implies {
                    &&& (#[trigger] rest[i]) < self.data@.len()
                    &&& self.data@[rest[i] as int] == Entry::<T>::Empty(link(rest, i + 1))
                } by {
                    assert(rest[i] == free[i + 1]);
                }
                assert forall|i: int|
                    0 <= i < old(self).indices@.len() && (#[trigger] old(self).indices@[i]) is Some
                    implies old(self).indices@[i]->0 != index by {
                }
                assert(placed(self.indices@, self.data@));
                assert(self.contents() =~= old(self).elsewhere(at).insert(e, data));
            }
        } else {
            let ghost n = self.data@.len() as int;
            self.data.push(entry);
            let index: usize = self.data.len() - 1;
            self.indices.set(entity_index, Some(index));
            proof {
                assert forall|i: int|
                    0 <= i < old(self).indices@.len() && (#[trigger] old(self).indices@[i]) is Some
                    implies old(self).indices@[i]->0 < n by {
                }
                assert(placed(self.indices@, self.data@));
                assert(self.contents() =~= old(self).elsewhere(at).insert(e, data));
            }
        }
    }

    // the data stored for the entity.
    fn get_at(&self, e: Entity) -> (r: Option<&T>)
        requires
            self.wf(),
            e.index() < self.slots(),
        ensures
            match r {
                Some(data) => self.contents().contains_key(e) && *data == self.contents()[e],
                None => !self.contents().contains_key(e),
            },
    {
        match self.indices[index_of(e) as usize] {
            Some(index) => match &self.data[index] {
                Entry::Full(full) => if full.entity == e {
                    Some(&full.data)
                } else {
                    None
                },
                // if we're storing an index for an entity, the entry is guaranteed to be full.
                Entry::Empty(_) => None,
            },
            None => None,
        }
    }

    // access to the data stored for the entity.
    fn get_mut_at(&mut self, e: Entity) -> (r: Option<&mut T>)
        requires
            old(self).wf(),
            e.index() < old(self).slots(),
        ensures
            final(self).wf(),
            final(self).slots() == old(self).slots(),
            final(self).entries() == old(self).entries(),
            final(self).free_entries() == old(self).free_entries(),
            match r {
                Some(data) => {
                    &&& old(self).contents().contains_key(e)
                    &&& *data == old(self).contents()[e]
                    &&& final(self).contents() == old(self).contents().insert(e, *final(data))
                },
                None => {
                    &&& !old(self).contents().contains_key(e)
                    &&& final(self).contents() == old(self).contents()
                },
            },
    {
        let entity_index: usize = index_of(e) as usize;
        match self.indices[entity_index] {
            Some(index) => {
                proof {
                    lemma_full_apart(self.data@, self.free@, index as int);
                    assert forall|x: Entity| 0 <= #[trigger] x.index() by {
                        entity::lemma_entity_ext(x, x);
                    }
                }
                let ghost before = *self;
                match &mut self.data[index] {
                    Entry::Full(full) => {
                        if full.entity != e {
                            proof {
                                let after = after_borrow(*self);
                                assert(after.data@ =~= before.data@);
                            }
                            return None;
                        }
                        let r = &mut full.data;
                        proof {
                            let after = after_borrow(*self);
                            assert(linked(after.data@, after.free@));
                            assert(placed(after.indices@, after.data@));
                            assert(after.contents() =~= before.contents().insert(e, *final(r)));
                        }
                        Some(r)
                    },
                    // if we're storing an index for an entity, the entry is still guaranteed to be full.
                    Entry::Empty(_) => None,
                }
            },
            None => None,
        }
    }

    // removes the data stored for the entity.
    fn remove_at(&mut self, e: Entity) -> (r: Option<T>)
        requires
            old(self).wf(),
            e.index() < old(self).slots(),
        ensures
            final(self).wf(),
            final(self).slots() == old(self).slots(),
            final(self).entries() == old(self).entries(),
            match r {
                Some(data) => {
                    &&& old(self).contents().contains_key(e)
                    &&& data == old(self).contents()[e]
                    &&& final(self).contents() == old(self).contents().remove(e)
                    &&& final(self).free_entries() == old(self).free_entries() + 1
                },
                None => {
                    &&& !old(self).contents().contains_key(e)
                    &&& final(self).contents() == old(self).contents()
                    &&& final(self).free_entries() == old(self).free_entries()
                },
            },
    {
        if self.get_at(e).is_none() {
            return None;
        }
        let entity_index: usize = index_of(e) as usize;
        match self.indices[entity_index] {
            Some(index) => {
                let ghost at = entity_index as int;
                proof {
                    lemma_full_apart(self.data@, self.free@, index as int);
                    assert forall|x: Entity| 0 <= #[trigger] x.index() by {
                        entity::lemma_entity_ext(x, x);
                    }
                }
                let entry = self.data[index].take();
                self.indices.set(entity_index, None);
                proof {
                    assert forall|i: int|
                        0 <= i < self.indices@.len() && (#[trigger] self.indices@[i]) is Some implies {
                        &&& self.indices@[i]->0 < self.data@.len()
                        &&& self.data@[self.indices@[i]->0 as int] is Full
                        &&& self.data@[self.indices@[i]->0 as int]->Full_0.entity.index() == i
                    } by {
                        assert(old(self).indices@[i] == self.indices@[i]);
                        assert(old(self).indices@[i] != old(self).indices@[at]);
                    }
                }
                let ghost mid = *self;
                self.freelist_push(index);
                proof {
                    assert forall|i: int|
                        0 <= i < self.indices@.len() && (#[trigger] self.indices@[i]) is Some
                        implies self.data@[self.indices@[i]->0 as int] == old(
                        self,
                    ).data@[self.indices@[i]->0 as int] by {
                        assert(mid.data@[self.indices@[i]->0 as int] is Full);
                        assert(old(self).indices@[i] != old(self).indices@[at]);
                    }
                    assert(self.contents() =~= old(self).contents().remove(e));
                }
                match entry {
                    Some(full) => Some(full.data),
                    None => None,
                }
            },
            None => None,
        }
    }

    /// Supply this ComponentMap with an EntityManager to get a usable handle.
    pub fn supply<'a>(&'a mut self, entity_manager: &'a EntityManager) -> (r: MapHandle<'a, T>)
        requires
            old(self).wf(),
            entity_manager.wf(),
        ensures
            r.wf(),
            r.spec_manager() == entity_manager,
            r.spec_map().contents() == old(self).contents(),
            r.spec_map().entries() == old(self).entries(),
            r.spec_map().free_entries() == old(self).free_entries(),
            *final(self) == *final(r.map),
    {
        // ensure capacity for indices so that each living entity has one.
        self.reach(entity_manager.size_hint());
        MapHandle { map: self, entity_manager }
    }
}

/// A component map, with the entities that it is for.
pub struct MapHandle<'a, T> {
    pub map: &'a mut ComponentMap<T>,
    pub entity_manager: &'a EntityManager,
}

impl<'a, T> MapHandle<'a, T> {
    /// The map as it is.
    pub open spec fn spec_map(&self) -> ComponentMap<T> {
        *self.map
    }

    /// The entities that the map is for.
    pub open spec fn spec_manager(&self) -> &EntityManager {
        self.entity_manager
    }

    /// Each living entity has an index.
    pub open spec fn wf(&self) -> bool {
        &&& self.map.wf()
        &&& self.entity_manager.wf()
        &&& self.map.slots() >= self.entity_manager.slots()
    }

    /// What is set for a living entity leaves the data of the others that live as it was.
    pub proof fn law_set_keeps_the_living(&self, e: Entity, x: Entity)
        requires
            self.wf(),
            self.entity_manager.living().contains_key(e),
            self.entity_manager.living().contains_key(x),
            x != e,
        ensures
            self.spec_map().elsewhere(e.index()).contains_key(x)
                == self.spec_map().contents().contains_key(x),
            self.spec_map().contents().contains_key(x) ==> self.spec_map().elsewhere(
                e.index(),
            )[x] == self.spec_map().contents()[x],
    {
        if x.index() == e.index() {
            self.entity_manager.law_one_entity_per_slot(e, x);
        }
    }

    /// Set the data stored for `e` to the value stored in `data`. Data that is left of a
    /// dead entity which was in the same slot goes.
    pub fn set(&mut self, e: Entity, data: T)
        requires
            old(self).wf(),
        ensures
            final(self).wf(),
            final(self).entity_manager == old(self).entity_manager,
            *final(final(self).map) == *final(old(self).map),
            if old(self).entity_manager.living().contains_key(e) {
                &&& final(self).spec_map().contents() == old(self).spec_map().elsewhere(
                    e.index(),
                ).insert(e, data)
                &&& final(self).spec_map().entries() == if old(self).spec_map().in_use(e.index())
                    || 0 < old(self).spec_map().free_entries() {
                    old(self).spec_map().entries()
                } else {
                    old(self).spec_map().entries() + 1
                }
                &&& final(self).spec_map().free_entries() == if old(self).spec_map().in_use(
                    e.index(),
                ) || old(self).spec_map().free_entries() == 0 {
                    old(self).spec_map().free_entries()
                } else {
                    (old(self).spec_map().free_entries() - 1) as nat
                }
            } else {
                *final(self).map == *old(self).map
            },
    {
        if !self.entity_manager.is_alive(e) {
            return;
        }
        proof {
            self.entity_manager.lemma_living_below(e);
        }
        self.map.set_at(e, data);
    }

    /// Try to get a reference to the data stored for `e`.
    /// Returns None if there isn't any.
    pub fn get(&self, e: Entity) -> (r: Option<&T>)
        requires
            self.wf(),
        ensures
            match r {
                Some(data) => {
                    &&& self.entity_manager.living().contains_key(e)
                    &&& self.spec_map().contents().contains_key(e)
                    &&& *data == self.spec_map().contents()[e]
                },
                None => !self.entity_manager.living().contains_key(e)
                    || !self.spec_map().contents().contains_key(e),
            },
    {
        if !self.entity_manager.is_alive(e) {
            return None;
        }
        proof {
            self.entity_manager.lemma_living_below(e);
        }
        self.map.get_at(e)
    }

    /// Try to get a mutable reference to the data stored for `e`.
    /// Returns None if there isn't any.
    pub fn get_mut(&mut self, e: Entity) -> (r: Option<&mut T>)
        requires
            old(self).wf(),
        ensures
            final(self).wf(),
            final(self).entity_manager == old(self).entity_manager,
            *final(final(self).map) == *final(old(self).map),
            match r {
                Some(data) => {
                    &&& old(self).entity_manager.living().contains_key(e)
                    &&& old(self).spec_map().contents().contains_key(e)
                    &&& *data == old(self).spec_map().contents()[e]
                    &&& final(self).spec_map().contents() == old(self).spec_map().contents().insert(
                        e,
                        *final(data),
                    )
                },
                None => {
                    &&& !old(self).entity_manager.living().contains_key(e) || !old(
                        self,
                    ).spec_map().contents().contains_key(e)
                    &&& final(self).spec_map().contents() == old(self).spec_map().contents()
                },
            },
    {
        if !self.entity_manager.is_alive(e) {
            return None;
        }
        proof {
            self.entity_manager.lemma_living_below(e);
        }
        self.map.get_mut_at(e)
    }

    /// Removes the data stored for `e`. Returns the old data
    /// if it existed.
    pub fn remove(&mut self, e: Entity) -> (r: Option<T>)
        requires
            old(self).wf(),
        ensures
            final(self).wf(),
            final(self).entity_manager == old(self).entity_manager,
            *final(final(self).map) == *final(old(self).map),
            match r {
                Some(data) => {
                    &&& old(self).entity_manager.living().contains_key(e)
                    &&& old(self).spec_map().contents().contains_key(e)
                    &&& data == old(self).spec_map().contents()[e]
                    &&& final(self).spec_map().contents() == old(self).spec_map().contents().remove(e)
                    &&& final(self).spec_map().entries() == old(self).spec_map().entries()
                    &&& final(self).spec_map().free_entries() == old(self).spec_map().free_entries() + 1
                },
                None => {
                    &&& !old(self).entity_manager.living().contains_key(e) || !old(
                        self,
                    ).spec_map().contents().contains_key(e)
                    &&& final(self).spec_map().contents() == old(self).spec_map().contents()
                },
            },
    {
        if !self.entity_manager.is_alive(e) {
            return None;
        }
        proof {
            self.entity_manager.lemma_living_below(e);
        }
        self.map.remove_at(e)
    }
}

/// What is set for a living entity is its data then. Data that is left of another entity in the
/// same slot goes, and all other data stays. A new entry is made only if the slot has none and no
/// entry is free.
pub proof fn law_setting_changes_one_slot<T>(e: Entity, data: T)
    ensures
        forall|h: &mut MapHandle<'_, T>|
            h.wf() && #[trigger] call_ensures(MapHandle::<'_, T>::set, (h, e, data), ()) ==> {
                let alive = h.entity_manager.living().contains_key(e);
                let before = h.spec_map();
                let after = final(h).spec_map();
                let held = exists|x: Entity| #[trigger]
                    before.contents().contains_key(x) && x.index() == e.index();
                &&& !alive ==> after == before
                &&& alive ==> {
                    &&& after.contents().contains_key(e) && after.contents()[e] == data
                    &&& forall|x: Entity|
                        x.index() != e.index() ==> {
                            &&& (#[trigger] after.contents().contains_key(x))
                                == before.contents().contains_key(x)
                            &&& before.contents().contains_key(x) ==> after.contents()[x]
                                == before.contents()[x]
                        }
                    &&& forall|x: Entity|
                        x != e && x.index() == e.index()
                            ==> !(#[trigger] after.contents().contains_key(x))
                    &&& !held && before.free_entries() == 0 ==> after.entries() == before.entries()
                        + 1 && after.free_entries() == 0
                    &&& !held && before.free_entries() > 0 ==> after.entries() == before.entries()
                        && after.free_entries() + 1 == before.free_entries()
                    &&& held ==> after.entries() == before.entries() && after.free_entries()
                        == before.free_entries()
                }
            },
{
}

} // verus!
