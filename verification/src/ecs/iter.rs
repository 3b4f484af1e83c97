//! Going through entities with or without certain components.

use vstd::prelude::*;
use super::entity::Entity;
use super::mapper::{ComponentMapper, ComponentMappers, entities_filtered, Filterable};
use super::offset_table::ComponentId;

verus! {

/// The entities that have a component. None has a component that there is no mapper
/// for.
pub open spec fn holders<M: ComponentMapper>(
    mappers: Map<ComponentId, M>,
    id: ComponentId,
) -> Set<Entity> {
    if mappers.contains_key(id) {
        mappers[id].data().dom()
    } else {
        Set::empty()
    }
}

/// Goes through entities.
pub struct EntityIter<'a, M> {
    mappers: &'a ComponentMappers<M>,
    entities: Vec<Entity>,
    next: usize,
}

impl<'a, M: ComponentMapper> EntityIter<'a, M> {
    /// The mappers that say who has which component.
    pub closed spec fn spec_mappers(&self) -> &ComponentMappers<M> {
        self.mappers
    }

    /// The entities that are still to come.
    pub closed spec fn remaining(&self) -> Seq<Entity> {
        self.entities@.skip(self.next as int)
    }

    /// There is a list of entities.
    pub closed spec fn wf(&self) -> bool {
        self.mappers.wf() && self.next <= self.entities@.len()
    }

    /// Goes through the given entities.
    pub fn new(mappers: &'a ComponentMappers<M>, entities: Vec<Entity>) -> (r: Self)
        requires
            mappers.wf(),
        ensures
            r.wf(),
            r.spec_mappers() == mappers,
            r.remaining() == entities@,
    {
        let r = EntityIter { mappers, entities, next: 0 };
        assert(r.remaining() =~= entities@);
        r
    }

    /// The next entity.
    pub fn next(&mut self) -> (r: Option<Entity>)
        requires
            old(self).wf(),
        ensures
            final(self).wf(),
            final(self).spec_mappers() == old(self).spec_mappers(),
            match r {
                Some(e) => {
                    &&& 0 < old(self).remaining().len()
                    &&& e == old(self).remaining()[0]
                    &&& final(self).remaining() == old(self).remaining().drop_first()
                },
                None => {
                    &&& old(self).remaining().len() == 0
                    &&& final(self).remaining() == old(self).remaining()
                },
            },
    {
        if self.next < self.entities.len() {
            let e = self.entities[self.next];
            self.next = self.next + 1;
            assert(self.remaining() =~= old(self).remaining().drop_first());
            Some(e)
        } else {
            None
        }
    }

    /// Filters this iter to only hold entities with the given component.
    pub fn with_component(self, id: ComponentId) -> (r: Self)
        requires
            self.wf(),
        ensures
            r.wf(),
            r.spec_mappers() == self.spec_mappers(),
            r.remaining() == self.remaining().filter(
                |e: Entity| holders(self.spec_mappers()@, id).contains(e),
            ),
    {
        let with = WithComponent::new(self.mappers, id);
        let mut kept: Vec<Entity> = Vec::new();
        let ghost p = |e: Entity| holders(self.spec_mappers()@, id).contains(e);
        let mut n: usize = self.next;
        proof {
            reveal(Seq::filter);
        }
        while n < self.entities.len()
            invariant
                self.wf(),
                self.next <= n <= self.entities@.len(),
                with.spec_entities() == holders(self.spec_mappers()@, id),
                p == (|e: Entity| holders(self.spec_mappers()@, id).contains(e)),
                kept@ == self.remaining().take(n - self.next).filter(p),
            decreases self.entities@.len() - n,
        {
            let e = self.entities[n];
            let keep = with.keeps(e);
            if keep {
                kept.push(e);
            }
            proof {
                lemma_filter_more(self.remaining(), n - self.next, p);
            }
            n = n + 1;
        }
        assert(self.remaining().take(n - self.next) =~= self.remaining());
        EntityIter::new(self.mappers, kept)
    }

    /// Filters this iter to only hold entities without the given component.
    pub fn without_component(self, id: ComponentId) -> (r: Self)
        requires
            self.wf(),
        ensures
            r.wf(),
            r.spec_mappers() == self.spec_mappers(),
            r.remaining() == self.remaining().filter(
                |e: Entity| !holders(self.spec_mappers()@, id).contains(e),
            ),
    {
        let without = WithoutComponent::new(self.mappers, id);
        let mut kept: Vec<Entity> = Vec::new();
        let ghost p = |e: Entity| !holders(self.spec_mappers()@, id).contains(e);
        let mut n: usize = self.next;
        proof {
            reveal(Seq::filter);
        }
        while n < self.entities.len()
            invariant
                self.wf(),
                self.next <= n <= self.entities@.len(),
                without.wf(),
                without.spec_holders() == holders(self.spec_mappers()@, id),
                p == (|e: Entity| !holders(self.spec_mappers()@, id).contains(e)),
                kept@ == self.remaining().take(n - self.next).filter(p),
            decreases self.entities@.len() - n,
        {
            let e = self.entities[n];
            let keep = without.keeps(e);
            if keep {
                kept.push(e);
            }
            proof {
                lemma_filter_more(self.remaining(), n - self.next, p);
            }
            n = n + 1;
        }
        assert(self.remaining().take(n - self.next) =~= self.remaining());
        EntityIter::new(self.mappers, kept)
    }
}

impl<'a, M: ComponentMapper> EntityIter<'a, M> where M::Component: Filterable {
    /// Filters this iter to only hold entities with the given component, whose data
    /// fits the filter.
    pub fn with_component_filtered(
        self,
        id: ComponentId,
        filter: &<M::Component as Filterable>::Filter,
    ) -> (r: Self)
        requires
            self.wf(),
        ensures
            r.wf(),
            r.spec_mappers() == self.spec_mappers(),
            r.remaining() == self.remaining().filter(
                |e: Entity|
                    holders(self.spec_mappers()@, id).contains(e)
                        && self.spec_mappers()@[id].data()[e].passes(filter),
            ),
    {
        let with = WithComponent::new_filtered(self.mappers, id, filter);
        let mut kept: Vec<Entity> = Vec::new();
        let ghost p = |e: Entity|
            holders(self.spec_mappers()@, id).contains(e)
                && self.spec_mappers()@[id].data()[e].passes(filter);
        let mut n: usize = self.next;
        proof {
            reveal(Seq::filter);
        }
        while n < self.entities.len()
            invariant
                self.wf(),
                self.next <= n <= self.entities@.len(),
                forall|e: Entity| #[trigger] with.spec_entities().contains(e) == p(e),
                kept@ == self.remaining().take(n - self.next).filter(p),
            decreases self.entities@.len() - n,
        {
            let e = self.entities[n];
            let keep = with.keeps(e);
            if keep {
                kept.push(e);
            }
            proof {
                lemma_filter_more(self.remaining(), n - self.next, p);
            }
            n = n + 1;
        }
        assert(self.remaining().take(n - self.next) =~= self.remaining());
        EntityIter::new(self.mappers, kept)
    }
}

// what filtering one more entry does.
proof fn lemma_filter_more(s: Seq<Entity>, n: int, p: spec_fn(Entity) -> bool)
    requires
        0 <= n < s.len(),
    ensures
        s.take(n + 1).filter(p) == if p(s[n]) {
            s.take(n).filter(p).push(s[n])
        } else {
            s.take(n).filter(p)
        },
{
    reveal(Seq::filter);
    assert(s.take(n + 1).drop_last() =~= s.take(n));
}

/// Keeps entities which have a specific component.
pub struct WithComponent {
    entities: Vec<Entity>,
}

impl WithComponent {
    /// The entities that are kept.
    pub closed spec fn spec_entities(&self) -> Set<Entity> {
        self.entities@.to_set()
    }

    /// Keeps the entities that have the given component.
    pub fn new<M: ComponentMapper>(mappers: &ComponentMappers<M>, id: ComponentId) -> (r: Self)
        requires
            mappers.wf(),
        ensures
            r.spec_entities() == holders(mappers@, id),
    {
        let entities = if mappers.has_mapper(id) {
            mappers.get_mapper(id).entities()
        } else {
            Vec::new()
        };
        assert(entities@.to_set() =~= holders(mappers@, id));
        WithComponent { entities }
    }

    /// Keeps the entities that have the given component with data that fits the
    /// filter.
    pub fn new_filtered<M: ComponentMapper>(
        mappers: &ComponentMappers<M>,
        id: ComponentId,
        filter: &<M::Component as Filterable>::Filter,
    ) -> (r: Self) where M::Component: Filterable
        requires
            mappers.wf(),
        ensures
            forall|e: Entity| #[trigger]
                r.spec_entities().contains(e) <==> holders(mappers@, id).contains(e)
                    && mappers@[id].data()[e].passes(filter),
    {
        let entities = if mappers.has_mapper(id) {
            entities_filtered(mappers.get_mapper(id), filter)
        } else {
            Vec::new()
        };
        let r = WithComponent { entities };
        proof {
            assert forall|e: Entity| #[trigger]
                r.spec_entities().contains(e) <==> holders(mappers@, id).contains(e)
                    && mappers@[id].data()[e].passes(filter) by {
                assert(r.spec_entities().contains(e) == entities@.contains(e));
            }
        }
        r
    }

    /// Whether the entity is kept.
    pub fn keeps(&self, e: Entity) -> (r: bool)
        ensures
            r == self.spec_entities().contains(e),
    {
        let mut n: usize = 0;
        while n < self.entities.len()
            invariant
                n <= self.entities@.len(),
                forall|k: int| 0 <= k < n ==> #[trigger] self.entities@[k] != e,
            decreases self.entities@.len() - n,
        {
            if self.entities[n] == e {
                assert(self.entities@.contains(e));
                return true;
            }
            n = n + 1;
        }
        false
    }
}

/// Keeps entities which don't have a specific component.
pub struct WithoutComponent<'a, M> {
    mapper: Option<&'a M>,
}

impl<'a, M: ComponentMapper> WithoutComponent<'a, M> {
    /// The entities that are not kept.
    pub closed spec fn spec_holders(&self) -> Set<Entity> {
        match self.mapper {
            Some(m) => m.data().dom(),
            None => Set::empty(),
        }
    }

    /// The mapper is well formed.
    pub closed spec fn wf(&self) -> bool {
        self.mapper matches Some(m) ==> m.wf()
    }

    /// Keeps the entities that do not have the given component.
    pub fn new(mappers: &'a ComponentMappers<M>, id: ComponentId) -> (r: Self)
        requires
            mappers.wf(),
        ensures
            r.wf(),
            r.spec_holders() == holders(mappers@, id),
    {
        let mapper = if mappers.has_mapper(id) {
            Some(mappers.get_mapper(id))
        } else {
            None
        };
        WithoutComponent { mapper }
    }

    /// Whether the entity is kept.
    pub fn keeps(&self, e: Entity) -> (r: bool)
        requires
            self.wf(),
        ensures
            r == !self.spec_holders().contains(e),
    {
        match self.mapper {
            Some(m) => m.get(e).is_none(),
            None => true,
        }
    }
}

/// Filtering keeps the entities that have the component, that is whose data the component's
/// mapper holds, or those that do not, in the order in which they come.
pub proof fn law_filters_keep_those_that_fit<'a, M: ComponentMapper>(
    iter: EntityIter<'a, M>,
    id: ComponentId,
    with: EntityIter<'a, M>,
    without: EntityIter<'a, M>,
)
    requires
        call_ensures(EntityIter::<'a, M>::with_component, (iter, id), with),
        call_ensures(EntityIter::<'a, M>::without_component, (iter, id), without),
    ensures
        ({
            let mappers = iter.spec_mappers()@;
            &&& mappers.contains_key(id) ==> {
                &&& with.remaining() == iter.remaining().filter(
                    |e: Entity| mappers[id].data().contains_key(e),
                )
                &&& without.remaining() == iter.remaining().filter(
                    |e: Entity| !mappers[id].data().contains_key(e),
                )
            }
            &&& !mappers.contains_key(id) ==> {
                &&& with.remaining().len() == 0
                &&& without.remaining() == iter.remaining()
            }
        }),
        with.spec_mappers() == iter.spec_mappers(),
        without.spec_mappers() == iter.spec_mappers(),
{
    let mappers = iter.spec_mappers()@;
    let p = |e: Entity| holders(mappers, id).contains(e);
    let np = |e: Entity| !holders(mappers, id).contains(e);
    let s = iter.remaining();
    assert(with.remaining() == s.filter(p));
    assert(without.remaining() == s.filter(np));
    if mappers.contains_key(id) {
        let q = |e: Entity| mappers[id].data().contains_key(e);
        let nq = |e: Entity| !mappers[id].data().contains_key(e);
        lemma_same_filter(s, p, q);
        lemma_same_filter(s, np, nq);
    } else {
        lemma_filter_all(s, p, np);
    }
}

// filters that agree keep the same.
proof fn lemma_same_filter(s: Seq<Entity>, p: spec_fn(Entity) -> bool, q: spec_fn(Entity) -> bool)
    requires
        forall|e: Entity| #[trigger] p(e) == q(e),
    ensures
        s.filter(p) == s.filter(q),
    decreases s.len(),
{
    reveal(Seq::filter);
    if s.len() > 0 {
        lemma_same_filter(s.drop_last(), p, q);
        assert(p(s.last()) == q(s.last()));
    }
}

// what nothing fits and everything fits.
proof fn lemma_filter_all(s: Seq<Entity>, p: spec_fn(Entity) -> bool, q: spec_fn(Entity) -> bool)
    requires
        forall|e: Entity| !(#[trigger] p(e)),
        forall|e: Entity| #[trigger] q(e),
    ensures
        s.filter(p).len() == 0,
        s.filter(q) == s,
    decreases s.len(),
{
    reveal(Seq::filter);
    if s.len() > 0 {
        lemma_filter_all(s.drop_last(), p, q);
        assert(!p(s.last()) && q(s.last()));
        assert(s.drop_last().push(s.last()) =~= s);
    } else {
        assert(s.filter(q) =~= s);
    }
}

/// Each entity is kept by one of the two: it is kept as one with the component if the component's
/// mapper holds its data, and else as one without.
pub proof fn law_each_entity_is_kept_once<M: ComponentMapper>(
    mappers: &ComponentMappers<M>,
    id: ComponentId,
    e: Entity,
    with: WithComponent,
    without: WithoutComponent<'_, M>,
    in_with: bool,
    in_without: bool,
)
    requires
        call_ensures(WithComponent::new::<M>, (mappers, id), with),
        call_ensures(WithoutComponent::<'_, M>::new, (mappers, id), without),
        call_ensures(WithComponent::keeps, (&with, e), in_with),
        call_ensures(WithoutComponent::<'_, M>::keeps, (&without, e), in_without),
    ensures
        in_with == (mappers@.contains_key(id) && mappers@[id].data().contains_key(e)),
        in_with != in_without,
{
}

/// Filtering with a filter keeps the entities whose data fits it, in the order in which they come, and
/// none if the component has no mapper.
pub proof fn law_filters_look_at_the_data<'a, M: ComponentMapper>(
    iter: EntityIter<'a, M>,
    id: ComponentId,
    filter: &<M::Component as Filterable>::Filter,
    r: EntityIter<'a, M>,
) where M::Component: Filterable
    requires
        call_ensures(EntityIter::<'a, M>::with_component_filtered, (iter, id, filter), r),
    ensures
        ({
            let mappers = iter.spec_mappers()@;
            &&& mappers.contains_key(id) ==> r.remaining() == iter.remaining().filter(
                |e: Entity|
                    mappers[id].data().contains_key(e) && mappers[id].data()[e].passes(filter),
            )
            &&& !mappers.contains_key(id) ==> r.remaining().len() == 0
        }),
{
    let mappers = iter.spec_mappers()@;
    let p = |e: Entity|
        holders(mappers, id).contains(e) && mappers[id].data()[e].passes(filter);
    let s = iter.remaining();
    assert(r.remaining() == s.filter(p));
    if mappers.contains_key(id) {
        let q = |e: Entity|
            mappers[id].data().contains_key(e) && mappers[id].data()[e].passes(filter);
        lemma_same_filter(s, p, q);
    } else {
        lemma_filter_all(s, p, |e: Entity| true);
    }
}

} // verus!
