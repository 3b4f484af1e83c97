//! A simple entity manager, whose entities are never destroyed.

use std::collections::HashSet;
use vstd::prelude::*;

verus! {

/// An unique entity.
/// Entities each have a unique id which serves
/// as a weak pointer to the entity.
#[derive(Clone, Copy, Debug, Eq, PartialEq, Hash, Structural)]
pub struct Entity {
    id: usize,
}

impl Entity {
    /// The number that stands for the entity.
    pub closed spec fn spec_id(self) -> int {
        self.id as int
    }
}

/// The number of an entity is not negative, and stands for that entity alone.
pub proof fn lemma_entity_ext(a: Entity, b: Entity)
    ensures
        0 <= a.spec_id() <= usize::MAX,
        a.spec_id() == b.spec_id() ==> a == b,
{
}

/// Simple entity manager backed by a hash set.
pub struct EntityManager {
    next: Entity,
    entities: HashSet<usize>,
}

impl EntityManager {
    /// The number of entities that were created.
    pub closed spec fn count(&self) -> nat {
        self.entities@.len()
    }

    /// The living entities: they are the first ones.
    pub open spec fn living(&self) -> Set<Entity> {
        Set::new(|e: Entity| e.spec_id() < self.count())
    }

    /// The numbers of the living entities are the first ones.
    pub closed spec fn wf(&self) -> bool {
        &&& self.entities@.finite()
        &&& forall|i: usize| #[trigger] self.entities@.contains(i) <==> i < self.entities@.len()
        &&& self.next.id <= self.entities@.len() <= self.next.id + 1
    }

    /// Creates a new entity manager.
    pub fn new() -> (r: EntityManager)
        ensures
            r.wf(),
            r.count() == 0,
            r.living() == Set::<Entity>::empty(),
    {
        broadcast use vstd::std_specs::hash::group_hash_axioms;

        let r = EntityManager { next: Entity { id: 0 }, entities: HashSet::new() };
        assert(r.living() =~= Set::<Entity>::empty());
        r
    }

    /// Creates an entity.
    pub fn next(&mut self) -> (e: Entity)
        requires
            old(self).wf(),
            old(self).count() <= usize::MAX,
        ensures
            final(self).wf(),
            e.spec_id() == old(self).count(),
            final(self).count() == old(self).count() + 1,
            !old(self).living().contains(e),
            final(self).living() == old(self).living().insert(e),
    {
        broadcast use vstd::std_specs::hash::group_hash_axioms;

        let ghost n = self.entities@.len();
        while self.alive(&self.next)
            invariant
                self.wf(),
                self.entities@ == old(self).entities@,
                n == self.entities@.len(),
                n <= usize::MAX,
            decreases n - self.next.id,
        {
            self.next = Entity { id: self.next.id + 1 };
        }
        self.entities.insert(self.next.id);
        assert(self.living() =~= old(self).living().insert(self.next));
        self.next
    }

    /// Creates a vector of n entities.
    pub fn next_n(&mut self, n: usize) -> (r: Vec<Entity>)
        requires
            old(self).wf(),
            old(self).count() + n <= usize::MAX,
        ensures
            final(self).wf(),
            final(self).count() == old(self).count() + n,
            r@.len() == n,
            forall|k: int|
                0 <= k < n ==> (#[trigger] r@[k]).spec_id() == old(self).count() + k,
            r@.no_duplicates(),
            final(self).living() == old(self).living().union(r@.to_set()),
    {
        let mut entities: Vec<Entity> = Vec::with_capacity(n);
        let mut k: usize = 0;
        while k < n
            invariant
                k <= n,
                self.wf(),
                self.count() == old(self).count() + k,
                old(self).count() + n <= usize::MAX,
                entities@.len() == k,
                forall|j: int|
                    0 <= j < k ==> (#[trigger] entities@[j]).spec_id() == old(self).count() + j,
            decreases n - k,
        {
            let e = self.next();
            entities.push(e);
            k = k + 1;
        }
        proof {
            assert forall|e: Entity| self.living().contains(e) == old(self).living().union(
                entities@.to_set(),
            ).contains(e) by {
                if old(self).count() <= e.spec_id() < self.count() {
                    let j = e.spec_id() - old(self).count();
                    lemma_entity_ext(entities@[j], e);
                    assert(entities@.contains(e));
                }
            }
            assert(self.living() =~= old(self).living().union(entities@.to_set()));
        }
        entities
    }

    /// Whether an entity is currently "alive", or exists.
    pub fn alive(&self, e: &Entity) -> (r: bool)
        requires
            self.wf(),
        ensures
            r == self.living().contains(*e),
    {
        broadcast use vstd::std_specs::hash::group_hash_axioms;

        self.entities.contains(&e.id)
    }
}

} // verus!
