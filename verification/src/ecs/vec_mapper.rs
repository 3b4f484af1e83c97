//! A component mapper that keeps the data in a vector.

use std::collections::HashMap;
use vstd::prelude::*;
use super::entity::Entity;
use super::entity;
use super::mapper::{ComponentMapper, keyed_entities};

verus! {

/// Each number of the map leads to a place of its own among `len` places, and the
/// unused places are the others.
pub open spec fn places_apart(offsets: Map<u32, usize>, unused: Seq<usize>, len: int) -> bool {
    &&& forall|id: u32| #[trigger] offsets.contains_key(id) ==> offsets[id] < len
    &&& forall|a: u32, b: u32|
        a != b && #[trigger] offsets.contains_key(a) && #[trigger] offsets.contains_key(b)
            ==> offsets[a] != offsets[b]
    &&& unused.no_duplicates()
    &&& forall|k: int| 0 <= k < unused.len() ==> (#[trigger] unused[k]) < len
    &&& forall|id: u32, k: int|
        #[trigger] offsets.contains_key(id) && 0 <= k < unused.len() ==> offsets[id]
            != #[trigger] unused[k]
}

/// Default implementation of a component mapper.
/// It is backed by a vector and designed to be cache-friendly.
/// This should be sufficient for most component types.
pub struct VecMapper<T> {
    instance_data: Vec<T>,
    offsets: HashMap<u32, usize>,
    unused_slots: Vec<usize>,
}

impl<T> VecMapper<T> {
    /// The number of places for data, used and unused.
    pub closed spec fn places(&self) -> nat {
        self.instance_data@.len()
    }

    /// The number of places for data that are unused.
    pub closed spec fn unused(&self) -> nat {
        self.unused_slots@.len()
    }

    /// Creates a new VecMapper
    pub fn new() -> (r: VecMapper<T>)
        ensures
            r.wf(),
            r.data() == Map::<Entity, T>::empty(),
            r.places() == 0,
            r.unused() == 0,
    {
        broadcast use vstd::std_specs::hash::group_hash_axioms;

        let r = VecMapper {
            instance_data: Vec::new(),
            offsets: HashMap::new(),
            unused_slots: Vec::new(),
        };
        assert(r.data() =~= Map::<Entity, T>::empty());
        r
    }
}

impl<T> ComponentMapper for VecMapper<T> {
    type Component = T;

    closed spec fn data(&self) -> Map<Entity, T> {
        Map::new(
            |e: Entity| self.offsets@.contains_key(e.spec_id()),
            |e: Entity| self.instance_data@[self.offsets@[e.spec_id()] as int],
        )
    }

    closed spec fn wf(&self) -> bool {
        places_apart(self.offsets@, self.unused_slots@, self.instance_data@.len() as int)
    }

    fn set(&mut self, e: Entity, c: T)
        ensures
            final(self).places() == if old(self).data().contains_key(e) || 0 < old(self).unused() {
                old(self).places()
            } else {
                old(self).places() + 1
            },
            final(self).unused() == if old(self).data().contains_key(e) || old(self).unused() == 0 {
                old(self).unused() as int
            } else {
                old(self).unused() - 1
            },
    {
        broadcast use vstd::std_specs::hash::group_hash_axioms;

        let id: u32 = e.id();
        let idx: Option<usize> = match self.offsets.get(&id) {
            Some(idx) => Some(*idx),
            None => None,
        };
        if let Some(idx) = idx {
            self.instance_data.set(idx, c);
        } else if let Some(idx) = self.unused_slots.pop() {
            let ghost unused = old(self).unused_slots@;
            assert(unused[unused.len() - 1] == idx);
            self.offsets.insert(id, idx);
            self.instance_data.set(idx, c);
            proof {
                assert forall|a: u32, k: int|
                    #[trigger] self.offsets@.contains_key(a) && 0 <= k
                        < self.unused_slots@.len() implies self.offsets@[a]
                    != #[trigger] self.unused_slots@[k] by {
                    assert(self.unused_slots@[k] == unused[k]);
                }
                assert forall|k: int| 0 <= k < self.unused_slots@.len() implies (
                #[trigger] self.unused_slots@[k]) < self.instance_data@.len() by {
                    assert(self.unused_slots@[k] == unused[k]);
                }
                assert forall|a: u32, b: u32|
                    a != b && #[trigger] self.offsets@.contains_key(a)
                        && #[trigger] self.offsets@.contains_key(b) implies self.offsets@[a]
                    != self.offsets@[b] by {
                    if a != id {
                        assert(old(self).offsets@.contains_key(a));
                        assert(old(self).offsets@[a] != unused[unused.len() - 1]);
                    }
                    if b != id {
                        assert(old(self).offsets@.contains_key(b));
                        assert(old(self).offsets@[b] != unused[unused.len() - 1]);
                    }
                }
            }
        } else {
            self.instance_data.push(c);
            let idx: usize = self.instance_data.len() - 1;
            self.offsets.insert(id, idx);
        }
        proof {
            assert forall|x: Entity| x.spec_id() == id implies x == e by {
                entity::lemma_entity_ext(x, e);
            }
            assert(self.data() =~= old(self).data().insert(e, c));
        }
    }

    fn get(&self, e: Entity) -> (r: Option<&T>) {
        broadcast use vstd::std_specs::hash::group_hash_axioms;

        match self.offsets.get(&e.id()) {
            Some(idx) => Some(&self.instance_data[*idx]),
            None => None,
        }
    }

    fn get_mut(&mut self, e: Entity) -> (r: Option<&mut T>)
        ensures
            final(self).places() == old(self).places(),
            final(self).unused() == old(self).unused(),
    {
        broadcast use vstd::std_specs::hash::group_hash_axioms;

        let idx: Option<usize> = match self.offsets.get(&e.id()) {
            Some(idx) => Some(*idx),
            None => None,
        };
        let ghost before = self.data();
        match idx {
            Some(idx) => {
                let r = &mut self.instance_data[idx];
                proof {
                    let after = after_borrow(*self);
                    assert forall|x: Entity| x.spec_id() == e.spec_id() implies x == e by {
                        entity::lemma_entity_ext(x, e);
                    }
                    assert(after.data() =~= before.insert(e, *final(r)));
                }
                Some(r)
            },
            None => None,
        }
    }

    fn remove(&mut self, e: Entity)
        ensures
            final(self).places() == old(self).places(),
            final(self).unused() == if old(self).data().contains_key(e) {
                old(self).unused() + 1
            } else {
                old(self).unused()
            },
    {
        broadcast use vstd::std_specs::hash::group_hash_axioms;

        let id: u32 = e.id();
        if let Some(idx) = self.offsets.remove(&id) {
            self.unused_slots.push(idx);
            proof {
                let unused = old(self).unused_slots@;
                assert forall|a: u32, k: int|
                    #[trigger] self.offsets@.contains_key(a) && 0 <= k
                        < self.unused_slots@.len() implies self.offsets@[a]
                    != #[trigger] self.unused_slots@[k] by {
                    assert(old(self).offsets@.contains_key(a));
                    assert(old(self).offsets@.contains_key(id));
                    if k < unused.len() {
                        assert(self.unused_slots@[k] == unused[k]);
                    }
                }
                assert forall|k: int| 0 <= k < self.unused_slots@.len() implies (
                #[trigger] self.unused_slots@[k]) < self.instance_data@.len() by {
                    if k < unused.len() {
                        assert(self.unused_slots@[k] == unused[k]);
                    }
                }
                assert(self.unused_slots@.no_duplicates()) by {
                    assert(old(self).offsets@.contains_key(id));
                    assert forall|k: int| 0 <= k < unused.len() implies #[trigger] unused[k]
                        != idx by {
                    }
                }
            }
        }
        proof {
            assert forall|x: Entity| x.spec_id() == id implies x == e by {
                entity::lemma_entity_ext(x, e);
            }
            assert(self.data() =~= old(self).data().remove(e));
        }
    }

    fn entities(&self) -> (r: Vec<Entity>) {
        let r = keyed_entities(&self.offsets);
        assert(r@.to_set() =~= self.data().dom());
        r
    }
}

} // verus!
