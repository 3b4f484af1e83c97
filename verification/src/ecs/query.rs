//! Queries for the entities that have all of some components.

use vstd::prelude::*;
use super::component_managers::ManagerLookup;
use super::component_managers;
use super::entity::Entity;
use super::mapper::{ComponentMapper, select};
use super::mapper;
use super::offset_table::ComponentId;

verus! {

/// A representation of a query in data: the components that are asked for.
#[derive(Debug)]
pub struct QuerySpec {
    ids: Vec<ComponentId>,
}

/// All of the components have well formed managers.
pub open spec fn managers_ok<L: ManagerLookup>(lookup: &L) -> bool where
    L::Manager: ComponentMapper,
 {
    forall|id: ComponentId| #[trigger]
        lookup.managers().contains_key(id) ==> lookup.managers()[id].wf()
}

/// The entity has all of the components.
pub open spec fn has_all<L: ManagerLookup>(lookup: &L, ids: Seq<ComponentId>, e: Entity) -> bool where
    L::Manager: ComponentMapper,
 {
    forall|k: int|
        0 <= k < ids.len() ==> lookup.managers().contains_key(#[trigger] ids[k])
            && lookup.managers()[ids[k]].data().contains_key(e)
}

impl QuerySpec {
    /// The components that are asked for.
    pub closed spec fn view(&self) -> Seq<ComponentId> {
        self.ids@
    }

    /// A query that asks for no component.
    pub fn new() -> (r: QuerySpec)
        ensures
            r@ == Seq::<ComponentId>::empty(),
    {
        QuerySpec { ids: Vec::new() }
    }

    /// Whether this query spec has this component
    pub fn has(&self, id: ComponentId) -> (r: bool)
        ensures
            r == self@.contains(id),
    {
        let mut n: usize = 0;
        while n < self.ids.len()
            invariant
                n <= self.ids@.len(),
                forall|k: int| 0 <= k < n ==> #[trigger] self.ids@[k] != id,
            decreases self.ids@.len() - n,
        {
            if self.ids[n] == id {
                return true;
            }
            n = n + 1;
        }
        false
    }

    /// Adds a component to this query spec. Gives the spec back as it was if the
    /// component is there already.
    pub fn with_component(self, id: ComponentId) -> (r: Result<QuerySpec, QuerySpec>)
        ensures
            match r {
                Ok(spec) => !self@.contains(id) && spec@ == self@.push(id),
                Err(spec) => self@.contains(id) && spec@ == self@,
            },
    {
        if self.has(id) {
            Err(self)
        } else {
            let mut ids = self.ids;
            ids.push(id);
            Ok(QuerySpec { ids })
        }
    }

    /// The number of components this query spec has.
    pub fn num_components(&self) -> (r: usize)
        ensures
            r == self@.len(),
    {
        self.ids.len()
    }

    /// Tries to load an entry for an entity: copies of the data of each component.
    pub fn load<L: ManagerLookup>(&self, managers: &L, e: Entity) -> (r: Option<
        Vec<<L::Manager as ComponentMapper>::Component>,
    >) where
        L::Manager: ComponentMapper,
        <L::Manager as ComponentMapper>::Component: Clone,

        requires
            managers_ok(managers),
        ensures
            match r {
                Some(entry) => {
                    &&& has_all(managers, self@, e)
                    &&& entry@.len() == self@.len()
                    &&& forall|k: int|
                        0 <= k < self@.len() ==> cloned(
                            managers.managers()[self@[k]].data()[e],
                            #[trigger] entry@[k],
                        )
                },
                None => !has_all(managers, self@, e),
            },
    {
        let mut entry: Vec<<L::Manager as ComponentMapper>::Component> = Vec::new();
        let mut n: usize = 0;
        while n < self.ids.len()
            invariant
                n <= self.ids@.len(),
                managers_ok(managers),
                has_all(managers, self@.take(n as int), e),
                entry@.len() == n,
                forall|k: int|
                    0 <= k < n ==> cloned(
                        managers.managers()[self@[k]].data()[e],
                        #[trigger] entry@[k],
                    ),
            decreases self.ids@.len() - n,
        {
            let id: ComponentId = self.ids[n];
            assert(self@[n as int] == id);
            match managers.lookup(id) {
                None => {
                    return None;
                },
                Some(manager) => match manager.get(e) {
                    None => {
                        return None;
                    },
                    Some(c) => {
                        entry.push(c.clone());
                    },
                },
            }
            proof {
                let more = self@.take(n + 1);
                assert forall|k: int| 0 <= k < more.len() implies managers.managers().contains_key(
                    #[trigger] more[k],
                ) && managers.managers()[more[k]].data().contains_key(e) by {
                    if k < n {
                        assert(self@.take(n as int)[k] == more[k]);
                    }
                }
            }
            n = n + 1;
        }
        assert(self@.take(n as int) =~= self@);
        Some(entry)
    }

    /// Returns a vector of the depths of each of its components.
    pub fn depths<L: ManagerLookup>(&self, managers: &L) -> (r: Vec<usize>)
        requires
            managers.ids().len() <= usize::MAX,
            forall|k: int|
                0 <= k < self@.len() ==> component_managers::first_place(
                    managers.ids(),
                    #[trigger] self@[k],
                ) is Ok,
        ensures
            r@.len() == self@.len(),
            forall|k: int|
                0 <= k < self@.len() ==> component_managers::first_place(
                    managers.ids(),
                    #[trigger] self@[k],
                ) == Ok::<int, int>(r@[k] as int),
    {
        let mut r: Vec<usize> = Vec::new();
        let mut n: usize = 0;
        while n < self.ids.len()
            invariant
                n <= self.ids@.len(),
                managers.ids().len() <= usize::MAX,
                forall|k: int|
                    0 <= k < self@.len() ==> component_managers::first_place(
                        managers.ids(),
                        #[trigger] self@[k],
                    ) is Ok,
                r@.len() == n,
                forall|k: int|
                    0 <= k < n ==> component_managers::first_place(
                        managers.ids(),
                        #[trigger] self@[k],
                    ) == Ok::<int, int>(r@[k] as int),
            decreases self.ids@.len() - n,
        {
            assert(component_managers::first_place(managers.ids(), self@[n as int]) is Ok);
            match managers.depth_of(self.ids[n]) {
                Ok(depth) => r.push(depth),
                Err(count) => r.push(count),
            }
            n = n + 1;
        }
        r
    }

    // the entities that have each of the components.
    fn candidates<L: ManagerLookup>(&self, managers: &L) -> (r: Vec<Vec<Entity>>) where
        L::Manager: ComponentMapper,

        requires
            managers_ok(managers),
            forall|k: int|
                0 <= k < self@.len() ==> managers.managers().contains_key(#[trigger] self@[k]),
        ensures
            r@.len() == self@.len(),
            forall|k: int| 0 <= k < self@.len() ==> (#[trigger] r@[k])@.no_duplicates(),
            forall|k: int|
                0 <= k < self@.len() ==> (#[trigger] r@[k])@.to_set()
                    == managers.managers()[self@[k]].data().dom(),
    {
        let mut r: Vec<Vec<Entity>> = Vec::new();
        let mut n: usize = 0;
        while n < self.ids.len()
            invariant
                n <= self.ids@.len(),
                managers_ok(managers),
                forall|k: int|
                    0 <= k < self@.len() ==> managers.managers().contains_key(
                        #[trigger] self@[k],
                    ),
                r@.len() == n,
                forall|k: int| 0 <= k < n ==> (#[trigger] r@[k])@.no_duplicates(),
                forall|k: int|
                    0 <= k < n ==> (#[trigger] r@[k])@.to_set()
                        == managers.managers()[self@[k]].data().dom(),
            decreases self.ids@.len() - n,
        {
            assert(managers.managers().contains_key(self@[n as int]));
            match managers.lookup(self.ids[n]) {
                Some(manager) => r.push(manager.entities()),
                None => r.push(Vec::new()),
            }
            n = n + 1;
        }
        r
    }
}

/// The data of an entity that a query has found.
pub trait QueryItem {
    /// The component data.
    type Component;

    /// The data of the components that were asked for.
    spec fn data(&self) -> Map<ComponentId, Self::Component>;

    /// The parts of the item agree with each other.
    spec fn wf(&self) -> bool;

    /// The data of a component that was asked for.
    fn get(&self, id: ComponentId) -> (r: Option<&Self::Component>)
        requires
            self.wf(),
        ensures
            match r {
                Some(c) => self.data().contains_key(id) && *c == self.data()[id],
                None => !self.data().contains_key(id),
            },
    ;
}

/// A cold query just asks component managers for component data as needed.
pub struct ColdQuery<'a, L> {
    spec: QuerySpec,
    managers: &'a L,
    entities: Vec<Entity>,
}

/// An entity that a cold query has found.
pub struct ColdQueryItem<'a, L> {
    spec: &'a QuerySpec,
    managers: &'a L,
    entity: Entity,
}

impl<'a, L: ManagerLookup> ColdQueryItem<'a, L> where L::Manager: ComponentMapper {
    /// The entity.
    pub closed spec fn spec_entity(&self) -> Entity {
        self.entity
    }

    /// The components that were asked for.
    pub closed spec fn spec_ids(&self) -> Seq<ComponentId> {
        self.spec@
    }

    /// The managers of the components.
    pub closed spec fn spec_managers(&self) -> &L {
        self.managers
    }

    /// The entity.
    pub fn entity(&self) -> (r: Entity)
        ensures
            r == self.spec_entity(),
    {
        self.entity
    }
}

impl<'a, L: ManagerLookup> QueryItem for ColdQueryItem<'a, L> where L::Manager: ComponentMapper {
    type Component = <L::Manager as ComponentMapper>::Component;

    open spec fn data(&self) -> Map<ComponentId, Self::Component> {
        Map::new(
            |id: ComponentId| self.spec_ids().contains(id),
            |id: ComponentId| self.spec_managers().managers()[id].data()[self.spec_entity()],
        )
    }

    open spec fn wf(&self) -> bool {
        &&& managers_ok(self.spec_managers())
        &&& has_all(self.spec_managers(), self.spec_ids(), self.spec_entity())
    }

    fn get(&self, id: ComponentId) -> (r: Option<&Self::Component>) {
        if self.spec.has(id) {
            proof {
                let ids = self.spec_ids();
                let k = choose|k: int| 0 <= k < ids.len() && ids[k] == id;
                assert(self.managers.managers().contains_key(ids[k]));
            }
            match self.managers.lookup(id) {
                Some(manager) => manager.get(self.entity),
                None => None,
            }
        } else {
            None
        }
    }
}

impl<'a, L: ManagerLookup> ColdQuery<'a, L> where L::Manager: ComponentMapper {
    /// The components that are asked for.
    pub closed spec fn spec_ids(&self) -> Seq<ComponentId> {
        self.spec@
    }

    /// The managers of the components.
    pub closed spec fn spec_managers(&self) -> &L {
        self.managers
    }

    /// The entities that were found and not given out yet.
    pub closed spec fn remaining(&self) -> Seq<Entity> {
        self.entities@
    }

    /// Each entity that was found has all of the components.
    pub closed spec fn wf(&self) -> bool {
        &&& managers_ok(self.managers)
        &&& forall|k: int|
            0 <= k < self.entities@.len() ==> has_all(
                self.managers,
                self.spec@,
                #[trigger] self.entities@[k],
            )
    }

    /// Finds the entities that have all of the components: none, if no component is
    /// asked for.
    pub fn new(spec: QuerySpec, managers: &'a L) -> (r: Self)
        requires
            managers_ok(managers),
            forall|k: int|
                0 <= k < spec@.len() ==> managers.managers().contains_key(#[trigger] spec@[k]),
        ensures
            r.wf(),
            r.spec_ids() == spec@,
            r.spec_managers() == managers,
            r.remaining().no_duplicates(),
            forall|e: Entity| #[trigger]
                r.remaining().contains(e) <==> 0 < spec@.len() && has_all(managers, spec@, e),
    {
        let candidates = spec.candidates(managers);
        let none: Vec<Vec<Entity>> = Vec::new();
        let entities = select(&candidates, &none);
        proof {
            let wanted = mapper::sets_of(candidates@);
            assert forall|e: Entity| #[trigger]
                entities@.contains(e) <==> 0 < spec@.len() && has_all(managers, spec@, e) by {
                if entities@.contains(e) {
                    assert forall|k: int| 0 <= k < spec@.len() implies managers.managers().contains_key(
                        #[trigger] spec@[k],
                    ) && managers.managers()[spec@[k]].data().contains_key(e) by {
                        assert(wanted[k].contains(e));
                        assert(candidates@[k]@.to_set().contains(e));
                    }
                }
                if 0 < spec@.len() && has_all(managers, spec@, e) {
                    assert forall|k: int| 0 <= k < wanted.len() implies (
                    #[trigger] wanted[k]).contains(e) by {
                        assert(managers.managers()[spec@[k]].data().contains_key(e));
                        assert(candidates@[k]@.to_set().contains(e));
                    }
                    assert(mapper::selected(wanted, mapper::sets_of(none@), e));
                }
            }
            assert forall|k: int| 0 <= k < entities@.len() implies has_all(
                managers,
                spec@,
                #[trigger] entities@[k],
            ) by {
                assert(entities@.contains(entities@[k]));
            }
        }
        ColdQuery { spec, managers, entities }
    }

    /// The next entity that was found.
    pub fn next(&mut self) -> (r: Option<ColdQueryItem<'_, L>>)
        requires
            old(self).wf(),
        ensures
            match r {
                Some(item) => {
                    &&& 0 < old(self).remaining().len()
                    &&& item.spec_entity() == old(self).remaining().last()
                    &&& item.spec_ids() == old(self).spec_ids()
                    &&& item.spec_managers() == old(self).spec_managers()
                    &&& item.wf()
                    &&& final(self).remaining() == old(self).remaining().drop_last()
                },
                None => {
                    &&& old(self).remaining().len() == 0
                    &&& final(self).remaining() == old(self).remaining()
                },
            },
            final(self).wf(),
            final(self).spec_ids() == old(self).spec_ids(),
            final(self).spec_managers() == old(self).spec_managers(),
    {
        match self.entities.pop() {
            Some(entity) => {
                proof {
                    let n = old(self).entities@.len() - 1;
                    assert(old(self).entities@[n] == entity);
                    assert forall|k: int| 0 <= k < self.entities@.len() implies has_all(
                        self.managers,
                        self.spec@,
                        #[trigger] self.entities@[k],
                    ) by {
                        assert(old(self).entities@[k] == self.entities@[k]);
                    }
                }
                Some(ColdQueryItem { spec: &self.spec, managers: self.managers, entity })
            },
            None => None,
        }
    }
}

/// An entry can be loaded for an entity just if each component that is asked for has a manager
/// that holds data for it: the entry is made of copies of the data, in the order in which the
/// components were asked for.
pub proof fn law_entries_hold_all_components<L: ManagerLookup>(
    spec: &QuerySpec,
    managers: &L,
    e: Entity,
    r: Option<Vec<<L::Manager as ComponentMapper>::Component>>,
) where L::Manager: ComponentMapper, <L::Manager as ComponentMapper>::Component: Clone
    requires
        call_ensures(QuerySpec::load::<L>, (spec, managers, e), r),
    ensures
        r is Some <==> forall|id: ComponentId| #[trigger]
            spec@.contains(id) ==> managers.managers().contains_key(id)
                && managers.managers()[id].data().contains_key(e),
        r matches Some(entry) ==> entry@.len() == spec@.len() && forall|k: int|
            0 <= k < spec@.len() ==> cloned(
                managers.managers()[spec@[k]].data()[e],
                #[trigger] entry@[k],
            ),
{
    lemma_has_all(managers, spec@, e);
}

// an entity has all of the components if it has each that is listed.
proof fn lemma_has_all<L: ManagerLookup>(lookup: &L, ids: Seq<ComponentId>, e: Entity) where
    L::Manager: ComponentMapper,

    ensures
        has_all(lookup, ids, e) <==> forall|id: ComponentId| #[trigger]
            ids.contains(id) ==> lookup.managers().contains_key(id)
                && lookup.managers()[id].data().contains_key(e),
{
    if forall|id: ComponentId| #[trigger]
        ids.contains(id) ==> lookup.managers().contains_key(id)
            && lookup.managers()[id].data().contains_key(e) {
        assert forall|k: int| 0 <= k < ids.len() implies lookup.managers().contains_key(
            #[trigger] ids[k],
        ) && lookup.managers()[ids[k]].data().contains_key(e) by {
            assert(ids.contains(ids[k]));
        }
    }
}

/// A cold query finds each entity that has all of the components that are asked for, once, and no
/// other. It finds none if no component is asked for.
pub proof fn law_cold_queries_find_those_with_all<'a, L: ManagerLookup>(
    spec: QuerySpec,
    managers: &'a L,
    r: ColdQuery<'a, L>,
    e: Entity,
) where L::Manager: ComponentMapper
    requires
        call_ensures(ColdQuery::<'a, L>::new, (spec, managers), r),
    ensures
        r.remaining().no_duplicates(),
        r.remaining().contains(e) <==> spec@.len() > 0 && forall|id: ComponentId| #[trigger]
            spec@.contains(id) ==> managers.managers().contains_key(id)
                && managers.managers()[id].data().contains_key(e),
{
    lemma_has_all(managers, spec@, e);
}

} // verus!
