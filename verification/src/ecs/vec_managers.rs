//! A default and generic component manager.
//!
//! This stores all component data in a vector, where
//! offsets into the vector are stored in a hashmap.
//! Users of the library may find it is more efficient
//! to write custom types.
//! For example, some kind of spatial partitioning system would likely
//! be more efficient for storing Position data in many cases, particularly
//! for collision detection.

use std::collections::{HashMap, VecDeque};
use vstd::prelude::*;
use super::entity::Entity;
use super::entity;
use super::mapper::ComponentMapper;
use super::mapper;
use super::vec_mapper;

verus! {

/// Default, generic, implementation of a component Manager.
/// It is backed by a vector and designed to be cache-friendly.
/// This should be sufficient for most component types.
pub struct VecManager<T> {
    instance_data: Vec<(Entity, T)>,
    offsets: HashMap<u32, usize>,
    unused_slots: VecDeque<usize>,
}

impl<T> VecManager<T> {
    /// The number of places for data, used and unused.
    pub closed spec fn places(&self) -> nat {
        self.instance_data@.len()
    }

    /// The number of places for data that are unused.
    pub closed spec fn unused(&self) -> nat {
        self.unused_slots@.len()
    }

    /// Creates a new VecManager
    pub fn new() -> (r: VecManager<T>)
        ensures
            r.wf(),
            r.data() == Map::<Entity, T>::empty(),
            r.places() == 0,
            r.unused() == 0,
    {
        broadcast use vstd::std_specs::hash::group_hash_axioms;

        let r = VecManager {
            instance_data: Vec::new(),
            offsets: HashMap::new(),
            unused_slots: VecDeque::new(),
        };
        assert(r.data() =~= Map::<Entity, T>::empty());
        r
    }
}

impl<T> ComponentMapper for VecManager<T> {
    type Component = T;

    closed spec fn data(&self) -> Map<Entity, T> {
        Map::new(
            |e: Entity| self.offsets@.contains_key(e.spec_id()),
            |e: Entity| self.instance_data@[self.offsets@[e.spec_id()] as int].1,
        )
    }

    closed spec fn wf(&self) -> bool {
        &&& vec_mapper::places_apart(
            self.offsets@,
            self.unused_slots@,
            self.instance_data@.len() as int,
        )
        &&& forall|id: u32| #[trigger]
            self.offsets@.contains_key(id)
                ==> self.instance_data@[self.offsets@[id] as int].0.spec_id() == id
    }

    fn set(&mut self, e: Entity, c: T)
        ensures
            final(self).places() == if old(self).data().contains_key(e) || 0 < old(self).unused() {
                old(self).places()
            } else {
                old(self).places() + 1
            },
            final(self).unused() == if old(self).data().contains_key(e) || old(self).unused() == 0 {
                old(self).unused() as int
            } else {
                old(self).unused() - 1
            },
    {
        broadcast use vstd::std_specs::hash::group_hash_axioms;

        let id: u32 = e.id();
        let idx: Option<usize> = match self.offsets.get(&id) {
            Some(idx) => Some(*idx),
            None => None,
        };
        if let Some(idx) = idx {
            self.instance_data.set(idx, (e, c));
            proof {
                assert forall|a: u32| #[trigger] self.offsets@.contains_key(a)
                    implies self.instance_data@[self.offsets@[a] as int].0.spec_id() == a by {
                    assert(old(self).offsets@.contains_key(a));
                    assert(old(self).offsets@.contains_key(id));
                }
            }
        } else if let Some(idx) = self.unused_slots.pop_front() {
            let ghost unused = old(self).unused_slots@;
            assert(unused[0] == idx);
            self.offsets.insert(id, idx);
            self.instance_data.set(idx, (e, c));
            proof {
                assert forall|k: int| 0 <= k < self.unused_slots@.len() implies {
                    &&& #[trigger] self.unused_slots@[k] == unused[k + 1]
                    &&& unused[k + 1] != unused[0]
                } by {
                }
                assert forall|a: u32| old(self).offsets@.contains_key(a) implies #[trigger] old(
                    self,
                ).offsets@[a] != idx by {
                    assert(old(self).offsets@[a] != unused[0]);
                }
                assert forall|a: u32, k: int|
                    #[trigger] self.offsets@.contains_key(a) && 0 <= k
                        < self.unused_slots@.len() implies self.offsets@[a]
                    != #[trigger] self.unused_slots@[k] by {
                    if a != id {
                        assert(old(self).offsets@.contains_key(a));
                        assert(old(self).offsets@[a] != unused[k + 1]);
                    }
                }
                assert forall|k: int| 0 <= k < self.unused_slots@.len() implies (
                #[trigger] self.unused_slots@[k]) < self.instance_data@.len() by {
                    assert(unused[k + 1] < old(self).instance_data@.len());
                }
                assert forall|a: u32, b: u32|
                    a != b && #[trigger] self.offsets@.contains_key(a)
                        && #[trigger] self.offsets@.contains_key(b) implies self.offsets@[a]
                    != self.offsets@[b] by {
                    if a != id {
                        assert(old(self).offsets@.contains_key(a));
                    }
                    if b != id {
                        assert(old(self).offsets@.contains_key(b));
                    }
                }
                assert forall|a: u32| #[trigger] self.offsets@.contains_key(a)
                    implies self.instance_data@[self.offsets@[a] as int].0.spec_id() == a by {
                    if a != id {
                        assert(old(self).offsets@.contains_key(a));
                    }
                }
            }
        } else {
            self.instance_data.push((e, c));
            let idx: usize = self.instance_data.len() - 1;
            self.offsets.insert(id, idx);
        }
        proof {
            assert forall|x: Entity| x.spec_id() == id implies x == e by {
                entity::lemma_entity_ext(x, e);
            }
            assert forall|x: Entity| x != e && #[trigger] old(self).data().contains_key(
                x,
            ) implies self.data()[x] == old(self).data()[x] by {
                assert(old(self).offsets@.contains_key(x.spec_id()));
                assert(self.offsets@[x.spec_id()] == old(self).offsets@[x.spec_id()]);
                assert(self.offsets@.contains_key(x.spec_id()));
                assert(self.offsets@.contains_key(id));
            }
            assert(self.data() =~= old(self).data().insert(e, c));
        }
    }

    fn get(&self, e: Entity) -> (r: Option<&T>) {
        broadcast use vstd::std_specs::hash::group_hash_axioms;

        match self.offsets.get(&e.id()) {
            Some(idx) => Some(&self.instance_data[*idx].1),
            None => None,
        }
    }

    fn get_mut(&mut self, e: Entity) -> (r: Option<&mut T>)
        ensures
            final(self).places() == old(self).places(),
            final(self).unused() == old(self).unused(),
    {
        broadcast use vstd::std_specs::hash::group_hash_axioms;

        let idx: Option<usize> = match self.offsets.get(&e.id()) {
            Some(idx) => Some(*idx),
            None => None,
        };
        let ghost before = *self;
        match idx {
            Some(idx) => {
                let r = &mut self.instance_data[idx].1;
                proof {
                    let after = after_borrow(*self);
                    assert forall|x: Entity| x.spec_id() == e.spec_id() implies x == e by {
                        entity::lemma_entity_ext(x, e);
                    }
                    assert forall|k: int| 0 <= k < before.instance_data@.len() implies #[trigger] after.instance_data@[k].0 == before.instance_data@[k].0 by {
                    }
                    assert forall|x: Entity| x != e && #[trigger] before.data().contains_key(
                        x,
                    ) implies after.data()[x] == before.data()[x] by {
                        assert(before.offsets@.contains_key(x.spec_id()));
                        assert(before.offsets@.contains_key(e.spec_id()));
                    }
                    assert(after.data() =~= before.data().insert(e, *final(r)));
                }
                Some(r)
            },
            None => None,
        }
    }

    fn remove(&mut self, e: Entity)
        ensures
            final(self).places() == old(self).places(),
            final(self).unused() == if old(self).data().contains_key(e) {
                old(self).unused() + 1
            } else {
                old(self).unused()
            },
    {
        broadcast use vstd::std_specs::hash::group_hash_axioms;

        let id: u32 = e.id();
        if let Some(idx) = self.offsets.remove(&id) {
            self.unused_slots.push_back(idx);
            proof {
                let unused = old(self).unused_slots@;
                assert(old(self).offsets@.contains_key(id));
                assert forall|k: int| 0 <= k < unused.len() implies {
                    &&& #[trigger] self.unused_slots@[k] == unused[k]
                    &&& unused[k] != idx
                } by {
                }
                assert forall|a: u32, k: int|
                    #[trigger] self.offsets@.contains_key(a) && 0 <= k
                        < self.unused_slots@.len() implies self.offsets@[a]
                    != #[trigger] self.unused_slots@[k] by {
                    assert(old(self).offsets@.contains_key(a));
                    if k < unused.len() {
                        assert(old(self).offsets@[a] != unused[k]);
                    }
                }
                assert forall|k: int| 0 <= k < self.unused_slots@.len() implies (
                #[trigger] self.unused_slots@[k]) < self.instance_data@.len() by {
                    if k < unused.len() {
                        assert(unused[k] < old(self).instance_data@.len());
                    }
                }
            }
        }
        proof {
            assert forall|x: Entity| x.spec_id() == id implies x == e by {
                entity::lemma_entity_ext(x, e);
            }
            assert(self.data() =~= old(self).data().remove(e));
        }
    }

    fn entities(&self) -> (r: Vec<Entity>) {
        broadcast use vstd::std_specs::hash::group_hash_axioms;

        let mut r: Vec<Entity> = Vec::new();
        let mut n: usize = 0;
        while n < self.instance_data.len()
            invariant
                n <= self.instance_data@.len(),
                self.wf(),
                r@.no_duplicates(),
                forall|e: Entity| #[trigger]
                    r@.contains(e) <==> self.data().contains_key(e)
                        && self.offsets@[e.spec_id()] < n,
            decreases self.instance_data@.len() - n,
        {
            broadcast use vstd::std_specs::hash::group_hash_axioms;

            let e = self.instance_data[n].0;
            let ghost before = r@;
            let here = match self.offsets.get(&e.id()) {
                Some(idx) => *idx == n,
                None => false,
            };
            if here {
                assert(!before.contains(e));
                r.push(e);
            }
            proof {
                assert forall|x: Entity| #[trigger]
                    r@.contains(x) <==> self.data().contains_key(x) && self.offsets@[x.spec_id()]
                        < n + 1 by {
                    if here {
                        mapper::lemma_push_contains(before, e, x);
                    }
                    if self.data().contains_key(x) && self.offsets@[x.spec_id()] == n {
                        assert(self.offsets@.contains_key(x.spec_id()));
                        entity::lemma_entity_ext(x, e);
                    }
                }
            }
            n = n + 1;
        }
        proof {
            assert forall|e: Entity| #[trigger] r@.to_set().contains(e)
                == self.data().contains_key(e) by {
                if self.data().contains_key(e) {
                    assert(self.offsets@.contains_key(e.spec_id()));
                }
                assert(r@.contains(e) == r@.to_set().contains(e));
            }
            assert(r@.to_set() =~= self.data().dom());
        }
        r
    }
}

} // verus!
