//! Mechanisms for handling component data for entities.

use std::collections::HashMap;
use std::collections::hash_map::Entry;
use vstd::prelude::*;
use super::entity::Entity;
use super::entity;
use super::offset_table::ComponentId;

verus! {

/// Component data that can be told apart by a filter.
pub trait Filterable {
    /// Tells component data apart.
    type Filter;

    /// Whether the data fits the filter.
    spec fn passes(&self, filter: &Self::Filter) -> bool;

    /// Whether the data fits the filter.
    fn fits(&self, filter: &Self::Filter) -> (r: bool)
        ensures
            r == self.passes(filter),
    ;
}

/// Maps entities to component data.
pub trait ComponentMapper {
    /// The component data.
    type Component;

    /// The data by the entities it belongs to.
    spec fn data(&self) -> Map<Entity, Self::Component>;

    /// The parts of the mapper agree with each other.
    spec fn wf(&self) -> bool;

    /// Get an immutable reference to an entity's component data.
    fn get(&self, e: Entity) -> (r: Option<&Self::Component>)
        requires
            self.wf(),
        ensures
            match r {
                Some(c) => self.data().contains_key(e) && *c == self.data()[e],
                None => !self.data().contains_key(e),
            },
    ;

    /// Get a mutable reference to an entity's component data.
    fn get_mut(&mut self, e: Entity) -> (r: Option<&mut Self::Component>)
        requires
            old(self).wf(),
        ensures
            final(self).wf(),
            match r {
                Some(c) => {
                    &&& old(self).data().contains_key(e)
                    &&& *c == old(self).data()[e]
                    &&& final(self).data() == old(self).data().insert(e, *final(c))
                },
                None => {
                    &&& !old(self).data().contains_key(e)
                    &&& final(self).data() == old(self).data()
                },
            },
    ;

    /// Sets the component data for a specific entity.
    fn set(&mut self, e: Entity, c: Self::Component)
        requires
            old(self).wf(),
        ensures
            final(self).wf(),
            final(self).data() == old(self).data().insert(e, c),
    ;

    /// Stop managing component data for this entity.
    fn remove(&mut self, e: Entity)
        requires
            old(self).wf(),
        ensures
            final(self).wf(),
            final(self).data() == old(self).data().remove(e),
    ;

    /// Get a vector of all the entities this manages.
    fn entities(&self) -> (r: Vec<Entity>)
        requires
            self.wf(),
        ensures
            r@.no_duplicates(),
            r@.to_set() == self.data().dom(),
    ;

    /// The component data of an entity that is known to have the component.
    fn index(&self, e: Entity) -> (r: &Self::Component)
        requires
            self.wf(),
            self.data().contains_key(e),
        ensures
            *r == self.data()[e],
    {
        self.get(e).unwrap()
    }
}

/// Get a vector of all the entities a mapper manages which fit the supplied filter.
pub fn entities_filtered<M: ComponentMapper>(
    mapper: &M,
    filter: &<M::Component as Filterable>::Filter,
) -> (r: Vec<Entity>) where M::Component: Filterable
    requires
        mapper.wf(),
    ensures
        r@.no_duplicates(),
        forall|e: Entity| #[trigger]
            r@.contains(e) <==> mapper.data().contains_key(e) && mapper.data()[e].passes(filter),
{
    let all = mapper.entities();
    let mut r: Vec<Entity> = Vec::new();
    let mut n: usize = 0;
    while n < all.len()
        invariant
            n <= all@.len(),
            mapper.wf(),
            all@.no_duplicates(),
            all@.to_set() == mapper.data().dom(),
            r@.no_duplicates(),
            forall|e: Entity| #[trigger]
                r@.contains(e) <==> all@.take(n as int).contains(e) && mapper.data()[e].passes(
                    filter,
                ),
        decreases all@.len() - n,
    {
        let e = all[n];
        assert(all@.contains(e));
        assert(all@.to_set().contains(e));
        let ghost before = r@;
        let fits = mapper.index(e).fits(filter);
        if fits {
            r.push(e);
        }
        proof {
            lemma_take_more(all@, n as int);
            assert(!all@.take(n as int).contains(e)) by {
                if all@.take(n as int).contains(e) {
                    let k = choose|k: int| 0 <= k < n && all@.take(n as int)[k] == e;
                    assert(all@[k] == all@[n as int]);
                }
            }
            assert(!before.contains(e));
            assert forall|x: Entity| #[trigger]
                r@.contains(x) <==> all@.take(n + 1).contains(x) && mapper.data()[x].passes(
                    filter,
                ) by {
                if fits {
                    lemma_push_contains(before, e, x);
                }
            }
        }
        n = n + 1;
    }
    proof {
        assert(all@.take(n as int) =~= all@);
        assert forall|e: Entity| #[trigger]
            r@.contains(e) <==> mapper.data().contains_key(e) && mapper.data()[e].passes(
                filter,
            ) by {
            assert(all@.to_set().contains(e) == all@.contains(e));
        }
    }
    r
}

// what one more entry of a list adds.
pub proof fn lemma_take_more<X>(s: Seq<X>, n: int)
    requires
        0 <= n < s.len(),
    ensures
        forall|x: X| #[trigger]
            s.take(n + 1).contains(x) <==> s.take(n).contains(x) || x == s[n],
{
    assert(s.take(n + 1) =~= s.take(n).push(s[n]));
    assert forall|x: X| #[trigger]
        s.take(n + 1).contains(x) <==> s.take(n).contains(x) || x == s[n] by {
        lemma_push_contains(s.take(n), s[n], x);
    }
}

// what a list with one more entry holds.
pub proof fn lemma_push_contains<X>(s: Seq<X>, y: X, x: X)
    ensures
        s.push(y).contains(x) <==> s.contains(x) || x == y,
{
    assert(s.push(y)[s.len() as int] == y);
    if s.contains(x) {
        let k = choose|k: int| 0 <= k < s.len() && s[k] == x;
        assert(s.push(y)[k] == x);
    }
    if s.push(y).contains(x) && x != y {
        let k = choose|k: int| 0 <= k < s.push(y).len() && s.push(y)[k] == x;
        assert(s[k] == x);
    }
}

/// The entities with the given numbers.
pub fn keyed_entities<V>(map: &HashMap<u32, V>) -> (r: Vec<Entity>)
    ensures
        r@.no_duplicates(),
        forall|e: Entity| #[trigger] r@.contains(e) <==> map@.contains_key(e.spec_id()),
{
    broadcast use vstd::std_specs::hash::group_hash_axioms;

    let mut r: Vec<Entity> = Vec::new();
    let ghost ids = vstd::std_specs::iter::IteratorSpec::remaining(
        &vstd::std_specs::hash::spec_keys_iter(map),
    ).unref();
    for id in it: map.keys()
        invariant
            it.seq().unref() == ids,
            r@.len() == it.index(),
            r@.len() <= ids.len(),
            forall|k: int| 0 <= k < r@.len() ==> (#[trigger] r@[k]).spec_id() == ids[k],
    {
        r.push(Entity::from_id(*id));
    }
    proof {
        assert(r@.len() == ids.len());
        assert forall|e: Entity| #[trigger] r@.contains(e) <==> map@.contains_key(
            e.spec_id(),
        ) by {
            if r@.contains(e) {
                let k = choose|k: int| 0 <= k < r@.len() && r@[k] == e;
                assert(ids.contains(ids[k]));
                assert(ids.to_set().contains(e.spec_id()));
            }
            if map@.contains_key(e.spec_id()) {
                assert(ids.to_set().contains(e.spec_id()));
                let k = choose|k: int| 0 <= k < ids.len() && ids[k] == e.spec_id();
                entity::lemma_entity_ext(r@[k], e);
                assert(r@[k] == e);
            }
        }
    }
    r
}

/// Stores all component mappers.
pub struct ComponentMappers<M> {
    map: HashMap<ComponentId, M>,
}

impl<M> ComponentMappers<M> {
    /// The mappers by their components.
    pub closed spec fn view(&self) -> Map<ComponentId, M> {
        self.map@
    }

    /// No mappers.
    pub fn new() -> (r: Self)
        ensures
            r@ == Map::<ComponentId, M>::empty(),
    {
        broadcast use vstd::std_specs::hash::group_hash_axioms;

        ComponentMappers { map: HashMap::new() }
    }

    /// Adds the mapper of a component. It takes the place of one that was there before.
    pub fn insert(&mut self, id: ComponentId, mapper: M)
        ensures
            final(self)@ == old(self)@.insert(id, mapper),
    {
        broadcast use vstd::std_specs::hash::group_hash_axioms;

        self.map.insert(id, mapper);
    }

    /// Whether there is a mapper for the component.
    pub fn has_mapper(&self, id: ComponentId) -> (r: bool)
        ensures
            r == self@.contains_key(id),
    {
        broadcast use vstd::std_specs::hash::group_hash_axioms;

        self.map.contains_key(&id)
    }

    /// Get an immutable reference to the component mapper for this component.
    pub fn get_mapper(&self, id: ComponentId) -> (r: &M)
        requires
            self@.contains_key(id),
        ensures
            *r == self@[id],
    {
        broadcast use vstd::std_specs::hash::group_hash_axioms;

        self.map.get(&id).unwrap()
    }

    /// Get a mutable reference to the component mapper for this component.
    pub fn get_mapper_mut(&mut self, id: ComponentId) -> (r: &mut M)
        requires
            old(self)@.contains_key(id),
        ensures
            *r == old(self)@[id],
            final(self)@ == old(self)@.insert(id, *final(r)),
    {
        broadcast use vstd::std_specs::hash::group_hash_axioms;

        match self.map.entry(id) {
            Entry::Occupied(entry) => entry.into_mut(),
            Entry::Vacant(entry) => {
                assert(false);
                loop
                    invariant
                        false,
                    decreases 0int,
                {
                }
            },
        }
    }
}

impl<M: ComponentMapper> ComponentMappers<M> {
    /// Each mapper is well formed.
    pub open spec fn wf(&self) -> bool {
        forall|id: ComponentId| #[trigger] self@.contains_key(id) ==> self@[id].wf()
    }

    /// Create a query for selecting specific entities.
    pub fn query<'a>(&'a self) -> (r: EntityQuery<'a, M>)
        requires
            self.wf(),
        ensures
            r.wf(),
            r.spec_mappers() == self,
            r.wanted() == Seq::<Set<Entity>>::empty(),
            r.unwanted() == Seq::<Set<Entity>>::empty(),
    {
        let r = EntityQuery { mappers: self, candidates: Vec::new(), disallowed: Vec::new() };
        assert(r.wanted() =~= Seq::<Set<Entity>>::empty());
        assert(r.unwanted() =~= Seq::<Set<Entity>>::empty());
        r
    }
}

/// How many of the lists an entity appears in.
pub open spec fn appearances(lists: Seq<Vec<Entity>>, e: Entity) -> int
    decreases lists.len(),
{
    if lists.len() == 0 {
        0
    } else {
        appearances(lists.drop_last(), e) + if lists.last()@.contains(e) {
            1int
        } else {
            0
        }
    }
}

// an entity appears in all lists if it appears as often as there are lists.
proof fn lemma_appearances(lists: Seq<Vec<Entity>>, e: Entity)
    ensures
        0 <= appearances(lists, e) <= lists.len(),
        appearances(lists, e) == lists.len() <==> (forall|k: int|
            0 <= k < lists.len() ==> (#[trigger] lists[k])@.contains(e)),
    decreases lists.len(),
{
    if lists.len() > 0 {
        let rest = lists.drop_last();
        lemma_appearances(rest, e);
        assert(forall|k: int| 0 <= k < rest.len() ==> #[trigger] rest[k] == lists[k]);
        if appearances(lists, e) == lists.len() {
            assert forall|k: int| 0 <= k < lists.len() implies (#[trigger] lists[k])@.contains(
                e,
            ) by {
                if k < rest.len() {
                    assert(rest[k]@.contains(e));
                }
            }
        }
        if forall|k: int| 0 <= k < lists.len() ==> (#[trigger] lists[k])@.contains(e) {
            assert forall|k: int| 0 <= k < rest.len() implies (#[trigger] rest[k])@.contains(
                e,
            ) by {
                assert(lists[k]@.contains(e));
            }
            assert(lists[lists.len() - 1]@.contains(e));
        }
    }
}

// the number that the map has for an entity.
spec fn count_of(counts: Map<u32, usize>, e: Entity) -> int {
    if counts.contains_key(e.spec_id()) {
        counts[e.spec_id()] as int
    } else {
        0
    }
}

// counts how many of the lists each entity appears in.
fn count_appearances(lists: &Vec<Vec<Entity>>) -> (counts: HashMap<u32, usize>)
    requires
        forall|k: int| 0 <= k < lists@.len() ==> (#[trigger] lists@[k])@.no_duplicates(),
    ensures
        forall|e: Entity| #[trigger] count_of(counts@, e) == appearances(lists@, e),
{
    broadcast use vstd::std_specs::hash::group_hash_axioms;

    let mut counts: HashMap<u32, usize> = HashMap::new();
    let total: usize = lists.len();
    let mut j: usize = 0;
    while j < total
        invariant
            j <= total == lists@.len(),
            forall|k: int| 0 <= k < lists@.len() ==> (#[trigger] lists@[k])@.no_duplicates(),
            forall|e: Entity| #[trigger]
                count_of(counts@, e) == appearances(lists@.take(j as int), e),
        decreases lists@.len() - j,
    {
        let list = &lists[j];
        let ghost start = counts@;
        let mut k: usize = 0;
        assert(list@.take(0) =~= Seq::<Entity>::empty());
        while k < list.len()
            invariant
                j < total == lists@.len(),
                list@ == lists@[j as int]@,
                list@.no_duplicates(),
                k <= list@.len(),
                forall|e: Entity| #[trigger]
                    count_of(start, e) == appearances(lists@.take(j as int), e),
                forall|e: Entity| #[trigger]
                    count_of(counts@, e) == count_of(start, e) + if list@.take(
                        k as int,
                    ).contains(e) {
                        1int
                    } else {
                        0
                    },
            decreases list@.len() - k,
        {
            broadcast use vstd::std_specs::hash::group_hash_axioms;

            let e = list[k];
            let id: u32 = e.id();
            let ghost before = counts@;
            let count: usize = match counts.get(&id) {
                Some(n) => *n,
                None => 0,
            };
            proof {
                assert(count == count_of(before, e));
                assert(!list@.take(k as int).contains(e)) by {
                    if list@.take(k as int).contains(e) {
                        let i = choose|i: int| 0 <= i < k && list@.take(k as int)[i] == e;
                        assert(list@[i] == list@[k as int]);
                    }
                }
                assert(count_of(start, e) == appearances(lists@.take(j as int), e));
                lemma_appearances(lists@.take(j as int), e);
                lemma_take_more(list@, k as int);
            }
            counts.insert(id, count + 1);
            proof {
                assert forall|x: Entity| #[trigger]
                    count_of(counts@, x) == count_of(start, x) + if list@.take(k + 1).contains(x) {
                        1int
                    } else {
                        0
                    } by {
                    entity::lemma_entity_ext(x, e);
                    assert(count_of(before, x) == count_of(start, x) + if list@.take(
                        k as int,
                    ).contains(x) {
                        1int
                    } else {
                        0
                    });
                }
            }
            k = k + 1;
        }
        proof {
            assert(list@.take(k as int) =~= list@);
            let more = lists@.take(j + 1);
            assert(more.drop_last() =~= lists@.take(j as int));
            assert(more.last() == lists@[j as int]);
            assert forall|e: Entity| #[trigger] count_of(counts@, e) == appearances(more, e) by {
                assert(count_of(start, e) == appearances(lists@.take(j as int), e));
            }
        }
        j = j + 1;
    }
    assert(lists@.take(j as int) =~= lists@);
    counts
}

/// Some list holds the entity.
pub open spec fn in_some(lists: Seq<Vec<Entity>>, e: Entity) -> bool {
    exists|k: int| 0 <= k < lists.len() && (#[trigger] lists[k])@.contains(e)
}

/// The intersection of all the candidate lists, without the disallowed entities, in
/// no particular order.
pub fn intersect(candidates: &Vec<Vec<Entity>>, disallowed: &Vec<Vec<Entity>>) -> (r: Vec<Entity>)
    requires
        forall|k: int|
            0 <= k < candidates@.len() ==> (#[trigger] candidates@[k])@.no_duplicates(),
    ensures
        r@.no_duplicates(),
        forall|e: Entity| #[trigger]
            r@.contains(e) <==> {
                &&& 0 < candidates@.len()
                &&& forall|k: int|
                    0 <= k < candidates@.len() ==> (#[trigger] candidates@[k])@.contains(e)
                &&& !in_some(disallowed@, e)
            },
{
    broadcast use vstd::std_specs::hash::group_hash_axioms;

    let total: usize = candidates.len();
    let mut entities: Vec<Entity> = Vec::new();
    if total == 0 {
        return entities;
    }
    // find the intersection between all the candidate lists
    let mut counts = count_appearances(candidates);
    // but ensure that no disallowed entities will be included.
    let mut j: usize = 0;
    while j < disallowed.len()
        invariant
            j <= disallowed@.len(),
            forall|e: Entity| #[trigger]
                count_of(counts@, e) == if in_some(disallowed@.take(j as int), e) {
                    0
                } else {
                    appearances(candidates@, e)
                },
        decreases disallowed@.len() - j,
    {
        let list = &disallowed[j];
        let ghost start = counts@;
        let mut k: usize = 0;
        assert(list@.take(0) =~= Seq::<Entity>::empty());
        while k < list.len()
            invariant
                k <= list@.len(),
                forall|e: Entity| #[trigger]
                    count_of(counts@, e) == if list@.take(k as int).contains(e) {
                        0
                    } else {
                        count_of(start, e)
                    },
            decreases list@.len() - k,
        {
            broadcast use vstd::std_specs::hash::group_hash_axioms;

            let ghost before = counts@;
            let e = list[k];
            counts.insert(e.id(), 0);
            proof {
                lemma_take_more(list@, k as int);
                assert forall|x: Entity| #[trigger]
                    count_of(counts@, x) == if list@.take(k + 1).contains(x) {
                        0
                    } else {
                        count_of(start, x)
                    } by {
                    entity::lemma_entity_ext(x, e);
                    assert(count_of(before, x) == if list@.take(k as int).contains(x) {
                        0
                    } else {
                        count_of(start, x)
                    });
                }
            }
            k = k + 1;
        }
        proof {
            assert(list@.take(k as int) =~= list@);
            let s = disallowed@.take(j as int);
            let t = disallowed@.take(j + 1);
            assert forall|e: Entity| #[trigger]
                count_of(counts@, e) == if in_some(t, e) {
                    0
                } else {
                    appearances(candidates@, e)
                } by {
                assert(t[j as int] == disallowed@[j as int]);
                if in_some(s, e) {
                    let i = choose|i: int| 0 <= i < s.len() && (#[trigger] s[i])@.contains(e);
                    assert(t[i]@.contains(e));
                }
                if in_some(t, e) && !list@.contains(e) {
                    let i = choose|i: int| 0 <= i < t.len() && (#[trigger] t[i])@.contains(e);
                    assert(s[i]@.contains(e));
                }
                assert(count_of(start, e) == count_of(start, e));
            }
        }
        j = j + 1;
    }
    assert(disallowed@.take(j as int) =~= disallowed@);
    // collect all entities in the intersection
    let keys = keyed_entities(&counts);
    let mut n: usize = 0;
    while n < keys.len()
        invariant
            n <= keys@.len(),
            keys@.no_duplicates(),
            total == candidates@.len(),
            0 < total,
            forall|e: Entity| #[trigger]
                keys@.contains(e) <==> counts@.contains_key(e.spec_id()),
            entities@.no_duplicates(),
            forall|e: Entity| #[trigger]
                entities@.contains(e) <==> keys@.take(n as int).contains(e) && count_of(
                    counts@,
                    e,
                ) == total,
        decreases keys@.len() - n,
    {
        broadcast use vstd::std_specs::hash::group_hash_axioms;

        let e = keys[n];
        let ghost before = entities@;
        assert(keys@.contains(e));
        let hit = match counts.get(&e.id()) {
            Some(count) => *count == total,
            None => false,
        };
        if hit {
            entities.push(e);
        }
        proof {
            lemma_take_more(keys@, n as int);
            assert(!keys@.take(n as int).contains(e)) by {
                if keys@.take(n as int).contains(e) {
                    let i = choose|i: int| 0 <= i < n && keys@.take(n as int)[i] == e;
                    assert(keys@[i] == keys@[n as int]);
                }
            }
            assert(!before.contains(e));
            assert forall|x: Entity| #[trigger]
                entities@.contains(x) <==> keys@.take(n + 1).contains(x) && count_of(counts@, x)
                    == total by {
                if hit {
                    lemma_push_contains(before, e, x);
                }
            }
        }
        n = n + 1;
    }
    proof {
        assert(keys@.take(n as int) =~= keys@);
        assert forall|e: Entity| #[trigger]
            entities@.contains(e) <==> {
                &&& 0 < candidates@.len()
                &&& forall|k: int|
                    0 <= k < candidates@.len() ==> (#[trigger] candidates@[k])@.contains(e)
                &&& !in_some(disallowed@, e)
            } by {
            lemma_appearances(candidates@, e);
            assert(count_of(counts@, e) == if in_some(disallowed@, e) {
                0
            } else {
                appearances(candidates@, e)
            });
        }
    }
    entities
}

/// A builder for entity queries.
pub struct EntityQuery<'a, M> {
    mappers: &'a ComponentMappers<M>,
    candidates: Vec<Vec<Entity>>,
    disallowed: Vec<Vec<Entity>>,
}

/// The sets of the entries of the lists.
pub open spec fn sets_of(lists: Seq<Vec<Entity>>) -> Seq<Set<Entity>> {
    lists.map_values(|v: Vec<Entity>| v@.to_set())
}

/// The entities that are in all the sets of one list, which is not empty, and in none
/// of the sets of another.
pub open spec fn selected(
    wanted: Seq<Set<Entity>>,
    unwanted: Seq<Set<Entity>>,
    e: Entity,
) -> bool {
    &&& 0 < wanted.len()
    &&& forall|k: int| 0 <= k < wanted.len() ==> (#[trigger] wanted[k]).contains(e)
    &&& forall|k: int| 0 <= k < unwanted.len() ==> !(#[trigger] unwanted[k]).contains(e)
}

/// Executes a query.
pub fn select(candidates: &Vec<Vec<Entity>>, disallowed: &Vec<Vec<Entity>>) -> (r: Vec<Entity>)
    requires
        forall|k: int|
            0 <= k < candidates@.len() ==> (#[trigger] candidates@[k])@.no_duplicates(),
    ensures
        r@.no_duplicates(),
        forall|e: Entity| #[trigger]
            r@.contains(e) <==> selected(sets_of(candidates@), sets_of(disallowed@), e),
{
    let r = intersect(candidates, disallowed);
    proof {
        let wanted = sets_of(candidates@);
        let unwanted = sets_of(disallowed@);
        assert forall|e: Entity| #[trigger] r@.contains(e) <==> selected(wanted, unwanted, e) by {
            assert(forall|k: int|
                0 <= k < wanted.len() ==> #[trigger] wanted[k].contains(e)
                    == candidates@[k]@.contains(e));
            assert(forall|k: int|
                0 <= k < unwanted.len() ==> #[trigger] unwanted[k].contains(e)
                    == disallowed@[k]@.contains(e));
            if r@.contains(e) {
                assert forall|k: int| 0 <= k < wanted.len() implies (#[trigger] wanted[k]).contains(
                    e,
                ) by {
                    assert(candidates@[k]@.contains(e));
                }
                assert forall|k: int| 0 <= k < unwanted.len() implies !(
                #[trigger] unwanted[k]).contains(e) by {
                    if disallowed@[k]@.contains(e) {
                        assert(in_some(disallowed@, e));
                    }
                }
            }
            if selected(wanted, unwanted, e) {
                assert forall|k: int| 0 <= k < candidates@.len() implies (
                #[trigger] candidates@[k])@.contains(e) by {
                    assert(wanted[k].contains(e));
                }
                if in_some(disallowed@, e) {
                    let k = choose|k: int|
                        0 <= k < disallowed@.len() && (#[trigger] disallowed@[k])@.contains(e);
                    assert(unwanted[k].contains(e));
                }
            }
        }
    }
    r
}

impl<'a, M: ComponentMapper> EntityQuery<'a, M> {
    /// The mappers that are queried.
    pub closed spec fn spec_mappers(&self) -> &ComponentMappers<M> {
        self.mappers
    }

    /// The sets that the entities must be in.
    pub closed spec fn wanted(&self) -> Seq<Set<Entity>> {
        sets_of(self.candidates@)
    }

    /// The sets that the entities must not be in.
    pub closed spec fn unwanted(&self) -> Seq<Set<Entity>> {
        sets_of(self.disallowed@)
    }

    /// No candidate is listed twice.
    pub closed spec fn wf(&self) -> bool {
        &&& self.mappers.wf()
        &&& forall|k: int|
            0 <= k < self.candidates@.len() ==> (#[trigger] self.candidates@[k])@.no_duplicates()
    }

    /// Causes this query to only return entities with the given component.
    pub fn with_component(self, id: ComponentId) -> (r: Self)
        requires
            self.wf(),
            self.spec_mappers()@.contains_key(id),
        ensures
            r.wf(),
            r.spec_mappers() == self.spec_mappers(),
            r.wanted() == self.wanted().push(self.spec_mappers()@[id].data().dom()),
            r.unwanted() == self.unwanted(),
    {
        let mut candidates = self.candidates;
        candidates.push(self.mappers.get_mapper(id).entities());
        let r = EntityQuery { mappers: self.mappers, candidates, disallowed: self.disallowed };
        assert(r.wanted() =~= self.wanted().push(self.spec_mappers()@[id].data().dom()));
        r
    }

    /// Causes this query to only return entities without the given component.
    pub fn without_component(self, id: ComponentId) -> (r: Self)
        requires
            self.wf(),
            self.spec_mappers()@.contains_key(id),
        ensures
            r.wf(),
            r.spec_mappers() == self.spec_mappers(),
            r.wanted() == self.wanted(),
            r.unwanted() == self.unwanted().push(self.spec_mappers()@[id].data().dom()),
    {
        let mut disallowed = self.disallowed;
        disallowed.push(self.mappers.get_mapper(id).entities());
        let r = EntityQuery { mappers: self.mappers, candidates: self.candidates, disallowed };
        assert(r.unwanted() =~= self.unwanted().push(self.spec_mappers()@[id].data().dom()));
        r
    }

    /// Executes the query on the mappers.
    pub fn into_iter(self) -> (r: Vec<Entity>)
        requires
            self.wf(),
        ensures
            r@.no_duplicates(),
            forall|e: Entity| #[trigger]
                r@.contains(e) <==> selected(self.wanted(), self.unwanted(), e),
    {
        select(&self.candidates, &self.disallowed)
    }
}

impl<'a, M: ComponentMapper> EntityQuery<'a, M> where M::Component: Filterable {
    /// Causes this query to only return entities with the given component,
    /// filtered with the associated filter.
    pub fn with_component_filtered(
        self,
        id: ComponentId,
        filter: &<M::Component as Filterable>::Filter,
    ) -> (r: Self)
        requires
            self.wf(),
            self.spec_mappers()@.contains_key(id),
        ensures
            r.wf(),
            r.spec_mappers() == self.spec_mappers(),
            r.wanted().len() == self.wanted().len() + 1,
            r.wanted().drop_last() == self.wanted(),
            forall|e: Entity| #[trigger]
                r.wanted().last().contains(e) <==> {
                    &&& self.spec_mappers()@[id].data().contains_key(e)
                    &&& self.spec_mappers()@[id].data()[e].passes(filter)
                },
            r.unwanted() == self.unwanted(),
    {
        let mut candidates = self.candidates;
        candidates.push(entities_filtered(self.mappers.get_mapper(id), filter));
        let r = EntityQuery { mappers: self.mappers, candidates, disallowed: self.disallowed };
        assert(r.wanted().drop_last() =~= self.wanted());
        r
    }
}

/// One of the calls that a query is built by.
pub enum Asked {
    /// The entities must have the component.
    With(ComponentId),
    /// The entities must not have the component.
    Without(ComponentId),
}

/// The query `r` is what a call makes of the query `q`.
pub open spec fn asked_of<'a, M: ComponentMapper>(
    q: EntityQuery<'a, M>,
    asked: Asked,
    r: EntityQuery<'a, M>,
) -> bool {
    match asked {
        Asked::With(id) => call_ensures(EntityQuery::<'a, M>::with_component, (q, id), r),
        Asked::Without(id) => call_ensures(EntityQuery::<'a, M>::without_component, (q, id), r),
    }
}

// what the calls so far ask of an entity.
proof fn lemma_query<'a, M: ComponentMapper>(
    mappers: &'a ComponentMappers<M>,
    qs: Seq<EntityQuery<'a, M>>,
    asked: Seq<Asked>,
    n: int,
    e: Entity,
)
    requires
        qs.len() == asked.len() + 1,
        call_ensures(ComponentMappers::<M>::query, (mappers,), qs[0]),
        forall|k: int| 0 <= k < asked.len() ==> asked_of(qs[k], #[trigger] asked[k], qs[k + 1]),
        0 <= n <= asked.len(),
    ensures
        qs[n].spec_mappers() == mappers,
        0 < qs[n].wanted().len() <==> exists|k: int| 0 <= k < n && (#[trigger] asked[k]) is With,
        (forall|j: int| 0 <= j < qs[n].wanted().len() ==> (#[trigger] qs[n].wanted()[j]).contains(e))
            <==> (forall|k: int|
            0 <= k < n && (#[trigger] asked[k]) is With
                ==> mappers@[asked[k]->With_0].data().contains_key(e)),
        (forall|j: int|
            0 <= j < qs[n].unwanted().len() ==> !(#[trigger] qs[n].unwanted()[j]).contains(e)) <==> (
        forall|k: int|
            0 <= k < n && (#[trigger] asked[k]) is Without
                ==> !mappers@[asked[k]->Without_0].data().contains_key(e)),
    decreases n,
{
    if n > 0 {
        lemma_query(mappers, qs, asked, n - 1, e);
        assert(asked_of(qs[n - 1], asked[n - 1], qs[n]));
        let before = qs[n - 1];
        let after = qs[n];
        match asked[n - 1] {
            Asked::With(id) => {
                let set = mappers@[id].data().dom();
                assert(after.wanted() == before.wanted().push(set));
                assert(after.unwanted() == before.unwanted());
                assert(asked[n - 1] is With);
                if forall|j: int|
                    0 <= j < after.wanted().len() ==> (#[trigger] after.wanted()[j]).contains(e) {
                    assert(after.wanted()[before.wanted().len() as int].contains(e));
                    assert forall|j: int| 0 <= j < before.wanted().len() implies (
                    #[trigger] before.wanted()[j]).contains(e) by {
                        assert(after.wanted()[j].contains(e));
                    }
                }
            },
            Asked::Without(id) => {
                let set = mappers@[id].data().dom();
                assert(after.unwanted() == before.unwanted().push(set));
                assert(after.wanted() == before.wanted());
                assert(asked[n - 1] is Without);
                if forall|j: int|
                    0 <= j < after.unwanted().len() ==> !(#[trigger] after.unwanted()[j]).contains(e) {
                    assert(!after.unwanted()[before.unwanted().len() as int].contains(e));
                    assert forall|j: int| 0 <= j < before.unwanted().len() implies !(
                    #[trigger] before.unwanted()[j]).contains(e) by {
                        assert(!after.unwanted()[j].contains(e));
                    }
                }
            },
        }
    }
}

/// A query that was built by any number of calls gives each entity once that has all of the
/// components asked for and none of those that it must not have. It gives none if no component
/// was asked for.
pub proof fn law_queries_give_those_that_fit<'a, M: ComponentMapper>(
    mappers: &'a ComponentMappers<M>,
    qs: Seq<EntityQuery<'a, M>>,
    asked: Seq<Asked>,
    r: Vec<Entity>,
)
    requires
        qs.len() == asked.len() + 1,
        call_ensures(ComponentMappers::<M>::query, (mappers,), qs[0]),
        forall|k: int| 0 <= k < asked.len() ==> asked_of(qs[k], #[trigger] asked[k], qs[k + 1]),
        call_ensures(EntityQuery::<'a, M>::into_iter, (qs[asked.len() as int],), r),
    ensures
        r@.no_duplicates(),
        forall|e: Entity| #[trigger]
            r@.contains(e) <==> {
                &&& exists|k: int| 0 <= k < asked.len() && (#[trigger] asked[k]) is With
                &&& forall|k: int|
                    0 <= k < asked.len() && (#[trigger] asked[k]) is With
                        ==> mappers@[asked[k]->With_0].data().contains_key(e)
                &&& forall|k: int|
                    0 <= k < asked.len() && (#[trigger] asked[k]) is Without
                        ==> !mappers@[asked[k]->Without_0].data().contains_key(e)
            },
{
    assert forall|e: Entity| #[trigger] r@.contains(e) <==> {
        &&& exists|k: int| 0 <= k < asked.len() && (#[trigger] asked[k]) is With
        &&& forall|k: int|
            0 <= k < asked.len() && (#[trigger] asked[k]) is With
                ==> mappers@[asked[k]->With_0].data().contains_key(e)
        &&& forall|k: int|
            0 <= k < asked.len() && (#[trigger] asked[k]) is Without
                ==> !mappers@[asked[k]->Without_0].data().contains_key(e)
    } by {
        lemma_query(mappers, qs, asked, asked.len() as int, e);
    }
}

/// Asking for one more component, with data that fits a filter, keeps of what a query gives
/// just the entities that have such data.
pub proof fn law_filters_narrow_a_query<'a, M: ComponentMapper>(
    q: EntityQuery<'a, M>,
    other: ComponentId,
    q1: EntityQuery<'a, M>,
    id: ComponentId,
    filter: &<M::Component as Filterable>::Filter,
    q2: EntityQuery<'a, M>,
    r1: Vec<Entity>,
    r2: Vec<Entity>,
) where M::Component: Filterable
    requires
        call_ensures(EntityQuery::<'a, M>::with_component, (q, other), q1),
        call_ensures(EntityQuery::<'a, M>::with_component_filtered, (q1, id, filter), q2),
        call_ensures(EntityQuery::<'a, M>::into_iter, (q1,), r1),
        call_ensures(EntityQuery::<'a, M>::into_iter, (q2,), r2),
    ensures
        forall|e: Entity| #[trigger]
            r2@.contains(e) <==> {
                &&& r1@.contains(e)
                &&& q.spec_mappers()@[id].data().contains_key(e)
                &&& q.spec_mappers()@[id].data()[e].passes(filter)
            },
{
    let w1 = q1.wanted();
    let w2 = q2.wanted();
    assert(0 < w1.len());
    assert forall|e: Entity| #[trigger] r2@.contains(e) <==> {
        &&& r1@.contains(e)
        &&& q.spec_mappers()@[id].data().contains_key(e)
        &&& q.spec_mappers()@[id].data()[e].passes(filter)
    } by {
        assert(r1@.contains(e) <==> selected(w1, q1.unwanted(), e));
        assert(forall|k: int| 0 <= k < w1.len() ==> #[trigger] w2[k] == w2.drop_last()[k]);
        assert(w2[w2.len() - 1] == w2.last());
        if r2@.contains(e) {
            assert(w2[w2.len() - 1].contains(e));
            assert forall|k: int| 0 <= k < w1.len() implies (#[trigger] w1[k]).contains(e) by {
                assert(w2[k].contains(e));
            }
        }
        if r1@.contains(e) && w2.last().contains(e) {
            assert forall|k: int| 0 <= k < w2.len() implies (#[trigger] w2[k]).contains(e) by {
                if k < w1.len() {
                    assert(w1[k].contains(e));
                }
            }
        }
    }
}

/// Executing a query gives each entity once that is in all the lists of candidates, if there are
/// any, and in none of the lists of disallowed entities.
pub proof fn law_select_gives_what_all_lists_share(
    candidates: &Vec<Vec<Entity>>,
    disallowed: &Vec<Vec<Entity>>,
    r: Vec<Entity>,
    e: Entity,
)
    requires
        call_ensures(select, (candidates, disallowed), r),
    ensures
        r@.no_duplicates(),
        r@.contains(e) <==> {
            &&& candidates@.len() > 0
            &&& forall|k: int|
                0 <= k < candidates@.len() ==> (#[trigger] candidates@[k])@.contains(e)
            &&& forall|k: int|
                0 <= k < disallowed@.len() ==> !(#[trigger] disallowed@[k])@.contains(e)
        },
{
    let wanted = sets_of(candidates@);
    let unwanted = sets_of(disallowed@);
    assert(r@.contains(e) <==> selected(wanted, unwanted, e));
    assert forall|k: int| 0 <= k < candidates@.len() implies (
    #[trigger] candidates@[k])@.contains(e) == wanted[k].contains(e) by {
        assert(wanted[k] == candidates@[k]@.to_set());
    }
    assert forall|k: int| 0 <= k < disallowed@.len() implies (
    #[trigger] disallowed@[k])@.contains(e) == unwanted[k].contains(e) by {
        assert(unwanted[k] == disallowed@[k]@.to_set());
    }
    if selected(wanted, unwanted, e) {
        assert forall|k: int| 0 <= k < candidates@.len() implies (
        #[trigger] candidates@[k])@.contains(e) by {
            assert(wanted[k].contains(e));
        }
        assert forall|k: int| 0 <= k < disallowed@.len() implies !(
        #[trigger] disallowed@[k])@.contains(e) by {
            assert(!unwanted[k].contains(e));
        }
    }
    if candidates@.len() > 0 && (forall|k: int|
        0 <= k < candidates@.len() ==> (#[trigger] candidates@[k])@.contains(e)) && (forall|k: int|
        0 <= k < disallowed@.len() ==> !(#[trigger] disallowed@[k])@.contains(e)) {
        assert forall|k: int| 0 <= k < wanted.len() implies (#[trigger] wanted[k]).contains(e) by {
            assert(candidates@[k]@.contains(e));
        }
        assert forall|k: int| 0 <= k < unwanted.len() implies !(#[trigger] unwanted[k]).contains(
            e,
        ) by {
            assert(!disallowed@[k]@.contains(e));
        }
    }
}

/// A query for a component with data that fits a filter gives each entity once that has such data.
pub proof fn law_filtered_queries_give_those_that_fit<'a, M: ComponentMapper>(
    mappers: &'a ComponentMappers<M>,
    q: EntityQuery<'a, M>,
    id: ComponentId,
    filter: &<M::Component as Filterable>::Filter,
    filtered: EntityQuery<'a, M>,
    r: Vec<Entity>,
    e: Entity,
) where M::Component: Filterable
    requires
        call_ensures(ComponentMappers::<M>::query, (mappers,), q),
        call_ensures(EntityQuery::<'a, M>::with_component_filtered, (q, id, filter), filtered),
        call_ensures(EntityQuery::<'a, M>::into_iter, (filtered,), r),
    ensures
        r@.no_duplicates(),
        r@.contains(e) <==> mappers@[id].data().contains_key(e) && mappers@[id].data()[e].passes(
            filter,
        ),
{
    assert(filtered.wanted()[0] == filtered.wanted().last());
    assert(r@.contains(e) <==> selected(filtered.wanted(), filtered.unwanted(), e));
}

} // verus!
