//! Worlds that are processed by systems.

pub mod deferred;

use std::collections::{HashMap, VecDeque};
use vstd::prelude::*;
use self::deferred::{ComponentEdit, Message, TypedEditHolder, world_handle, WorldHandle};
use super::entity::{Entity, EntityManager, Names};
use super::mapper::{ComponentMapper, ComponentMappers};
use super::mapper;
use super::offset_table::ComponentId;

verus! {

/// A part of the processing of a world. It sees the world as it is, and sends messages
/// on what is to be changed.
pub trait System<M: ComponentMapper, E>: Sized {
    /// Whether a system may send messages, and be left in a state, when it processes a
    /// world.
    spec fn may_send(
        before: Self,
        em: EntityManager,
        mappers: ComponentMappers<M>,
        after: Self,
        sent: Seq<Message<M::Component, E>>,
    ) -> bool;

    /// Processes the world.
    fn process<'a>(&mut self, handle: &mut WorldHandle<'a, M, E>)
        requires
            old(handle).wf(),
        ensures
            final(handle).wf(),
            final(handle).spec_em() == old(handle).spec_em(),
            final(handle).spec_mappers() == old(handle).spec_mappers(),
            old(handle).messages().is_prefix_of(final(handle).messages()),
            Self::may_send(
                *old(self),
                *old(handle).spec_em(),
                *old(handle).spec_mappers(),
                *final(self),
                final(handle).messages().skip(old(handle).messages().len() as int),
            ),
    ;
}

/// Each system has processed the world in turn. The messages that a system sent stand
/// between its end and the end of the system before it.
pub open spec fn all_ran<M: ComponentMapper, E, S: System<M, E>>(
    before: Seq<S>,
    em: EntityManager,
    mappers: ComponentMappers<M>,
    after: Seq<S>,
    sent: Seq<Message<M::Component, E>>,
    ends: Seq<int>,
) -> bool {
    &&& after.len() == before.len()
    &&& ends.len() == before.len() + 1
    &&& ends[0] == 0
    &&& ends.last() == sent.len()
    &&& forall|k: int|
        0 <= k < before.len() ==> #[trigger] ran::<M, E, S>(
            before[k],
            em,
            mappers,
            after[k],
            sent,
            ends[k],
            ends[k + 1],
        )
}

/// A system has processed the world, and sent the messages from one place to another.
pub open spec fn ran<M: ComponentMapper, E, S: System<M, E>>(
    before: S,
    em: EntityManager,
    mappers: ComponentMappers<M>,
    after: S,
    sent: Seq<Message<M::Component, E>>,
    from: int,
    to: int,
) -> bool {
    &&& 0 <= from <= to <= sent.len()
    &&& S::may_send(before, em, mappers, after, sent.subrange(from, to))
}

/// The entities and the data of a world.
#[verifier::ext_equal]
pub struct Snapshot<C> {
    /// The living entities.
    pub living: Set<Entity>,
    /// What the names of new entities depend on.
    pub names: Names,
    /// The data by its components and entities.
    pub data: Map<ComponentId, Map<Entity, C>>,
}

/// The data that a new entity gets for a component: of data for the same component the
/// last counts.
pub open spec fn data_for<C>(components: Seq<(ComponentId, C)>, id: ComponentId) -> Option<C>
    decreases components.len(),
{
    if components.len() == 0 {
        None
    } else if components.last().0 == id {
        Some(components.last().1)
    } else {
        data_for(components.drop_last(), id)
    }
}

/// The new entities get a copy of the data for a component, and nothing else changes.
pub open spec fn given<C: Clone>(
    before: Map<Entity, C>,
    after: Map<Entity, C>,
    c: Option<C>,
    new: Set<Entity>,
) -> bool {
    match c {
        None => after == before,
        Some(c) => {
            &&& after.dom() == before.dom().union(new)
            &&& forall|e: Entity| #[trigger]
                after.contains_key(e) ==> if new.contains(e) {
                    cloned(c, after[e])
                } else {
                    after[e] == before[e]
                }
        },
    }
}

/// The new entities get copies of the data, and nothing else changes.
pub open spec fn all_given<C: Clone>(
    before: Map<ComponentId, Map<Entity, C>>,
    after: Map<ComponentId, Map<Entity, C>>,
    components: Seq<(ComponentId, C)>,
    new: Set<Entity>,
) -> bool {
    &&& after.dom() == before.dom()
    &&& forall|id: ComponentId| #[trigger]
        before.contains_key(id) ==> given(before[id], after[id], data_for(components, id), new)
}

/// What processing a message does, apart from the edits.
pub open spec fn processed<C: Clone, E>(
    before: Snapshot<C>,
    msg: Message<C, E>,
    after: Snapshot<C>,
) -> bool {
    match msg {
        Message::Next(n, components) => {
            let new = before.names.upcoming(n as nat);
            &&& new.no_duplicates()
            &&& new.to_set().disjoint(before.living)
            &&& after.living == before.living.union(new.to_set())
            &&& after.names == before.names.created(n as nat)
            &&& all_given(before.data, after.data, components@, new.to_set())
        },
        Message::Edit(_, _) => after == before,
        Message::Destroy(e) => {
            &&& after.living == before.living.remove(e)
            &&& after.names == if before.living.contains(e) {
                before.names.destroyed(e)
            } else {
                before.names
            }
            &&& after.data == before.data
        },
        Message::Prune(id) => {
            &&& after.living == before.living
            &&& after.names == before.names
            &&& after.data == before.data.insert(id, before.data[id].restrict(before.living))
        },
    }
}

/// Each message is processed in turn.
pub open spec fn all_processed<C: Clone, E>(states: Seq<Snapshot<C>>, msgs: Seq<Message<C, E>>) -> bool {
    &&& states.len() == msgs.len() + 1
    &&& forall|k: int|
        0 <= k < msgs.len() ==> processed(states[k], #[trigger] msgs[k], states[k + 1])
}

/// The entities that the messages ask for are created in order, and no other.
pub proof fn law_history_grows_by_what_was_asked_for<C: Clone, E>(
    states: Seq<Snapshot<C>>,
    msgs: Seq<Message<C, E>>,
)
    requires
        all_processed(states, msgs),
    ensures
        states[0].names.history.is_prefix_of(states.last().names.history),
        states.last().names.history.len() == states[0].names.history.len() + asked_for(msgs),
    decreases msgs.len(),
{
    if msgs.len() > 0 {
        let rest = states.drop_first();
        let later = msgs.drop_first();
        assert forall|k: int| 0 <= k < later.len() implies processed(
            rest[k],
            #[trigger] later[k],
            rest[k + 1],
        ) by {
            assert(later[k] == msgs[k + 1]);
            assert(rest[k] == states[k + 1] && rest[k + 1] == states[k + 2]);
        }
        law_history_grows_by_what_was_asked_for(rest, later);
        assert(processed(states[0], msgs[0], states[1]));
        assert(rest[0] == states[1]);
        assert(rest.last() == states.last());
    }
}

/// The edits of a component that the messages ask for.
pub open spec fn edits_of<C, E: ComponentEdit>(msgs: Seq<Message<C, E>>, id: ComponentId) -> Map<
    Entity,
    deferred::ComponentEdits<E>,
>
    decreases msgs.len(),
{
    if msgs.len() == 0 {
        Map::empty()
    } else {
        let before = edits_of(msgs.drop_last(), id);
        match msgs.last() {
            Message::Edit(i, list) => if i == id {
                deferred::edits_and(before, list@)
            } else {
                before
            },
            _ => before,
        }
    }
}

/// The world once the edits that the messages ask for have been applied.
pub open spec fn after_edits<E: ComponentEdit>(
    state: Snapshot<E::Item>,
    msgs: Seq<Message<E::Item, E>>,
) -> Snapshot<E::Item> {
    Snapshot {
        living: state.living,
        names: state.names,
        data: Map::new(
            |id: ComponentId| state.data.contains_key(id),
            |id: ComponentId| deferred::edited(edits_of(msgs, id), state.living, state.data[id]),
        ),
    }
}

/// How many entities the messages ask for.
pub open spec fn asked_for<C, E>(msgs: Seq<Message<C, E>>) -> int
    decreases msgs.len(),
{
    if msgs.len() == 0 {
        0
    } else {
        asked_for(msgs.drop_first()) + match msgs[0] {
            Message::Next(n, _) => n as int,
            _ => 0,
        }
    }
}

// the number of entities asked for is not negative.
proof fn lemma_asked_for<C, E>(msgs: Seq<Message<C, E>>)
    ensures
        0 <= asked_for(msgs),
    decreases msgs.len(),
{
    if msgs.len() > 0 {
        lemma_asked_for(msgs.drop_first());
    }
}

/// The data of all mappers.
pub open spec fn data_of<M: ComponentMapper>(mappers: Map<ComponentId, M>) -> Map<
    ComponentId,
    Map<Entity, M::Component>,
> {
    Map::new(|id: ComponentId| mappers.contains_key(id), |id: ComponentId| mappers[id].data())
}

// gives a new entity copies of the data.
fn initialize<M: ComponentMapper>(
    mappers: &mut ComponentMappers<M>,
    e: Entity,
    components: &Vec<(ComponentId, M::Component)>,
) where M::Component: Clone
    requires
        old(mappers).wf(),
        deferred::components_ok(components@, old(mappers)@.dom()),
    ensures
        final(mappers).wf(),
        all_given(
            data_of(old(mappers)@),
            data_of(final(mappers)@),
            components@,
            Set::empty().insert(e),
        ),
{
    let ghost start = data_of(mappers@);
    let ghost new = Set::<Entity>::empty().insert(e);
    let mut n: usize = 0;
    assert(components@.take(0) =~= Seq::empty());
    assert(data_of(mappers@) =~= start);
    while n < components.len()
        invariant
            n <= components@.len(),
            mappers.wf(),
            mappers@.dom() == old(mappers)@.dom(),
            deferred::components_ok(components@, old(mappers)@.dom()),
            start == data_of(old(mappers)@),
            new == Set::<Entity>::empty().insert(e),
            all_given(start, data_of(mappers@), components@.take(n as int), new),
        decreases components@.len() - n,
    {
        let ghost before = data_of(mappers@);
        let id: ComponentId = components[n].0;
        assert(components@[n as int].0 == id);
        assert(mappers@.dom().contains(id));
        let c = components[n].1.clone();
        mappers.get_mapper_mut(id).set(e, c);
        proof {
            let after = data_of(mappers@);
            let more = components@.take(n + 1);
            assert(more.drop_last() =~= components@.take(n as int));
            assert(more.last() == components@[n as int]);
            assert(mappers@.dom() =~= old(mappers)@.dom());
            assert(after.dom() =~= start.dom());
            assert forall|i: ComponentId| #[trigger] start.contains_key(i) implies given(
                start[i],
                after[i],
                data_for(more, i),
                new,
            ) by {
                assert(before.contains_key(i));
                if i == id {
                    assert(after[i] == before[i].insert(e, c));
                    assert(after[i].dom() =~= start[i].dom().union(new));
                } else {
                    assert(after[i] == before[i]);
                }
            }
        }
        n = n + 1;
    }
    assert(components@.take(n as int) =~= components@);
}

// removes dead entities from the mapper of a component.
fn prune<M: ComponentMapper>(mapper: &mut M, em: &EntityManager)
    requires
        old(mapper).wf(),
    ensures
        final(mapper).wf(),
        final(mapper).data() == old(mapper).data().restrict(em.living().dom()),
{
    let entities = mapper.entities();
    let ghost start = mapper.data();
    let ghost living = em.living().dom();
    let mut n: usize = 0;
    assert(entities@.take(0) =~= Seq::empty());
    while n < entities.len()
        invariant
            n <= entities@.len(),
            mapper.wf(),
            living == em.living().dom(),
            forall|e: Entity| #[trigger]
                mapper.data().contains_key(e) <==> start.contains_key(e) && !(entities@.take(
                    n as int,
                ).contains(e) && !living.contains(e)),
            forall|e: Entity| #[trigger]
                mapper.data().contains_key(e) ==> mapper.data()[e] == start[e],
        decreases entities@.len() - n,
    {
        let e = entities[n];
        let ghost before = mapper.data();
        if !em.is_alive(e) {
            mapper.remove(e);
        }
        proof {
            mapper::lemma_take_more(entities@, n as int);
            assert forall|x: Entity| #[trigger]
                mapper.data().contains_key(x) <==> start.contains_key(x) && !(entities@.take(
                    n + 1,
                ).contains(x) && !living.contains(x)) by {
                assert(before.contains_key(x) <==> start.contains_key(x) && !(entities@.take(
                    n as int,
                ).contains(x) && !living.contains(x)));
            }
            assert forall|x: Entity| #[trigger]
                mapper.data().contains_key(x) implies mapper.data()[x] == start[x] by {
                assert(before.contains_key(x));
            }
        }
        n = n + 1;
    }
    proof {
        assert(entities@.take(n as int) =~= entities@);
        assert forall|e: Entity| #[trigger] entities@.contains(e) == start.contains_key(e) by {
            assert(entities@.to_set().contains(e) == entities@.contains(e));
        }
        assert(mapper.data() =~= start.restrict(living));
    }
}

// the keys of a map.
fn keys_of<V>(map: &HashMap<u64, V>) -> (r: Vec<u64>)
    ensures
        r@.no_duplicates(),
        forall|id: u64| #[trigger] r@.contains(id) <==> map@.contains_key(id),
{
    broadcast use vstd::std_specs::hash::group_hash_axioms;

    let mut r: Vec<u64> = Vec::new();
    let ghost ids = vstd::std_specs::iter::IteratorSpec::remaining(
        &vstd::std_specs::hash::spec_keys_iter(map),
    ).unref();
    for id in it: map.keys()
        invariant
            it.seq().unref() == ids,
            r@.len() == it.index(),
            r@.len() <= ids.len(),
            forall|k: int| 0 <= k < r@.len() ==> #[trigger] r@[k] == ids[k],
    {
        r.push(*id);
    }
    proof {
        assert(r@ =~= ids);
        assert forall|id: u64| #[trigger] r@.contains(id) <==> map@.contains_key(id) by {
            assert(ids.to_set().contains(id) == ids.contains(id));
        }
    }
    r
}

/// The `World` ties together entities, components, and systems.
pub struct World<M, S> {
    entity_manager: EntityManager,
    component_mappers: ComponentMappers<M>,
    systems: Vec<S>,
}

impl<M: ComponentMapper, S> World<M, S> {
    /// The entity manager.
    pub closed spec fn spec_em(&self) -> EntityManager {
        self.entity_manager
    }

    /// The component mappers.
    pub closed spec fn spec_mappers(&self) -> ComponentMappers<M> {
        self.component_mappers
    }

    /// The entities and the data of the world.
    pub open spec fn snapshot(&self) -> Snapshot<M::Component> {
        Snapshot {
            living: self.spec_em().living().dom(),
            names: self.spec_em().names(),
            data: data_of(self.spec_mappers()@),
        }
    }

    /// The parts of the world are well formed.
    pub open spec fn wf(&self) -> bool {
        self.spec_em().wf() && self.spec_mappers().wf()
    }

    /// Gets a mutable reference to the entity manager.
    pub fn entity_manager(&mut self) -> (r: &mut EntityManager)
        ensures
            *r == old(self).spec_em(),
            final(self).spec_em() == *final(r),
            final(self).spec_mappers() == old(self).spec_mappers(),
            final(self).spec_systems() == old(self).spec_systems(),
    {
        &mut self.entity_manager
    }

    /// The component mappers.
    pub fn mappers(&self) -> (r: &ComponentMappers<M>)
        ensures
            *r == self.spec_mappers(),
    {
        &self.component_mappers
    }

    /// Access to the component mappers.
    pub fn mappers_mut(&mut self) -> (r: &mut ComponentMappers<M>)
        ensures
            *r == old(self).spec_mappers(),
            final(self).spec_mappers() == *final(r),
            final(self).spec_em() == old(self).spec_em(),
            final(self).spec_systems() == old(self).spec_systems(),
    {
        &mut self.component_mappers
    }

    /// Lets all the systems in this world see it, in order, and collects the messages that
    /// they send.
    pub fn run_systems<E>(&mut self) -> (r: VecDeque<Message<M::Component, E>>) where
        S: System<M, E>,

        requires
            old(self).wf(),
        ensures
            final(self).wf(),
            final(self).spec_em() == old(self).spec_em(),
            final(self).spec_mappers() == old(self).spec_mappers(),
            deferred::messages_ok(r@, old(self).spec_mappers()@.dom()),
            exists|ends: Seq<int>| #[trigger]
                all_ran::<M, E, S>(
                    old(self).spec_systems(),
                    old(self).spec_em(),
                    old(self).spec_mappers(),
                    final(self).spec_systems(),
                    r@,
                    ends,
                ),
    {
        let mut handle: WorldHandle<'_, M, E> = world_handle(
            &self.entity_manager,
            &self.component_mappers,
        );
        let ghost before = self.systems@;
        let ghost em = self.entity_manager;
        let ghost mappers = self.component_mappers;
        let ghost mut ends: Seq<int> = seq![0];
        let mut n: usize = 0;
        while n < self.systems.len()
            invariant
                handle.wf(),
                handle.spec_em() == em,
                handle.spec_mappers() == mappers,
                self.entity_manager == em,
                self.component_mappers == mappers,
                n <= self.systems@.len() == before.len(),
                ends.len() == n + 1,
                ends[0] == 0,
                ends[n as int] == handle.messages().len(),
                forall|k: int| n <= k < before.len() ==> #[trigger] self.systems@[k] == before[k],
                forall|k: int|
                    0 <= k < n ==> #[trigger] ran::<M, E, S>(
                        before[k],
                        em,
                        mappers,
                        self.systems@[k],
                        handle.messages(),
                        ends[k],
                        ends[k + 1],
                    ),
            decreases self.systems@.len() - n,
        {
            let ghost systems = self.systems@;
            let ghost sent = handle.messages();
            assert(systems[n as int] == before[n as int]);
            self.systems[n].process(&mut handle);
            proof {
                let now = handle.messages();
                let new_ends = ends.push(now.len() as int);
                assert forall|k: int| 0 <= k < n + 1 implies #[trigger] ran::<M, E, S>(
                    before[k],
                    em,
                    mappers,
                    self.systems@[k],
                    now,
                    new_ends[k],
                    new_ends[k + 1],
                ) by {
                    if k < n {
                        assert(ran::<M, E, S>(
                            before[k],
                            em,
                            mappers,
                            systems[k],
                            sent,
                            ends[k],
                            ends[k + 1],
                        ));
                        assert(now.subrange(ends[k], ends[k + 1]) =~= sent.subrange(
                            ends[k],
                            ends[k + 1],
                        ));
                    } else {
                        assert(now.subrange(ends[k], now.len() as int) =~= now.skip(
                            sent.len() as int,
                        ));
                    }
                }
                ends = new_ends;
            }
            n = n + 1;
        }
        let messages = handle.into_messages();
        assert(all_ran::<M, E, S>(
            old(self).spec_systems(),
            old(self).spec_em(),
            old(self).spec_mappers(),
            self.spec_systems(),
            messages@,
            ends,
        ));
        messages
    }

    // creates entities with copies of the data.
    fn spawn(&mut self, n: usize, components: Vec<(ComponentId, M::Component)>) where
        M::Component: Clone,

        requires
            old(self).wf(),
            n <= old(self).spec_em().spec_room(),
            deferred::components_ok(components@, old(self).spec_mappers()@.dom()),
        ensures
            final(self).wf(),
            final(self).spec_systems() == old(self).spec_systems(),
            final(self).spec_em().spec_room() == old(self).spec_em().spec_room() - n,
            final(self).spec_mappers()@.dom() == old(self).spec_mappers()@.dom(),
            ({
                let before = old(self).snapshot();
                let after = final(self).snapshot();
                let new = before.names.upcoming(n as nat);
                &&& new.no_duplicates()
                &&& new.to_set().disjoint(before.living)
                &&& after.living == before.living.union(new.to_set())
                &&& after.names == before.names.created(n as nat)
                &&& all_given(before.data, after.data, components@, new.to_set())
            }),
    {
        let ghost start = data_of(self.component_mappers@);
        let entities = self.entity_manager.next_entities(n);
        let ghost em = self.entity_manager;
        let mut k: usize = 0;
        assert(entities@.take(0).to_set() =~= Set::<Entity>::empty());
        assert forall|id: ComponentId| #[trigger] start.contains_key(id) implies given(
            start[id],
            start[id],
            data_for(components@, id),
            entities@.take(0).to_set(),
        ) by {
            assert(start[id].dom() =~= start[id].dom().union(entities@.take(0).to_set()));
        }
        while k < entities.len()
            invariant
                k <= entities@.len(),
                self.entity_manager == em,
                self.systems@ == old(self).systems@,
                self.component_mappers.wf(),
                self.component_mappers@.dom() == old(self).component_mappers@.dom(),
                deferred::components_ok(components@, old(self).component_mappers@.dom()),
                entities@.no_duplicates(),
                start == data_of(old(self).component_mappers@),
                all_given(
                    start,
                    data_of(self.component_mappers@),
                    components@,
                    entities@.take(k as int).to_set(),
                ),
            decreases entities@.len() - k,
        {
            let ghost before = data_of(self.component_mappers@);
            let ghost old_new = entities@.take(k as int).to_set();
            let e = entities[k];
            initialize(&mut self.component_mappers, e, &components);
            proof {
                let after = data_of(self.component_mappers@);
                let new = entities@.take(k + 1).to_set();
                let one = Set::<Entity>::empty().insert(e);
                assert(new =~= old_new.insert(e)) by {
                    mapper::lemma_take_more(entities@, k as int);
                    assert forall|x: Entity| #[trigger] new.contains(x) == old_new.insert(
                        e,
                    ).contains(x) by {
                        assert(entities@.take(k + 1).contains(x) == new.contains(x));
                        assert(entities@.take(k as int).contains(x) == old_new.contains(x));
                    }
                }
                assert(self.component_mappers@.dom() =~= old(self).component_mappers@.dom()) by {
                    assert forall|id: ComponentId| #[trigger]
                        self.component_mappers@.dom().contains(id) == old(
                            self,
                        ).component_mappers@.dom().contains(id) by {
                        assert(after.dom().contains(id) == before.dom().contains(id));
                    }
                }
                assert forall|id: ComponentId| #[trigger] start.contains_key(id) implies given(
                    start[id],
                    after[id],
                    data_for(components@, id),
                    new,
                ) by {
                    assert(before.contains_key(id));
                    assert(given(before[id], after[id], data_for(components@, id), one));
                    if data_for(components@, id) is Some {
                        assert(after[id].dom() =~= start[id].dom().union(new));
                    }
                }
            }
            k = k + 1;
        }
        proof {
            assert(entities@.take(k as int) =~= entities@);
            assert(self.entity_manager.living().dom() =~= old(
                self,
            ).entity_manager.living().dom().union(entities@.to_set()));
            assert(entities@.to_set().disjoint(old(self).snapshot().living)) by {
                assert forall|e: Entity| entities@.to_set().contains(e) implies !old(
                    self,
                ).snapshot().living.contains(e) by {
                    let i = choose|i: int| 0 <= i < entities@.len() && entities@[i] == e;
                    assert(!old(self).entity_manager.living().contains_key(entities@[i]));
                }
            }
        }
    }

    /// Processes messages in order, and then applies the edits that they ask for.
    pub fn process_messages<E: ComponentEdit<Item = M::Component>>(
        &mut self,
        messages: VecDeque<Message<M::Component, E>>,
    ) where M::Component: Clone
        requires
            old(self).wf(),
            deferred::messages_ok(messages@, old(self).spec_mappers()@.dom()),
            asked_for(messages@) <= old(self).spec_em().spec_room(),
        ensures
            final(self).wf(),
            final(self).spec_systems() == old(self).spec_systems(),
            final(self).spec_mappers()@.dom() == old(self).spec_mappers()@.dom(),
            exists|states: Seq<Snapshot<M::Component>>|
                {
                    &&& #[trigger] all_processed(states, messages@)
                    &&& states[0] == old(self).snapshot()
                    &&& final(self).snapshot() == after_edits::<E>(states.last(), messages@)
                },
    {
        broadcast use vstd::std_specs::hash::group_hash_axioms;

        let ghost all = messages@;
        let ghost managed = self.component_mappers@.dom();
        let mut rest = messages;
        let mut edit_holders: HashMap<ComponentId, TypedEditHolder<E>> = HashMap::new();
        let ghost mut states: Seq<Snapshot<M::Component>> = seq![self.snapshot()];
        let ghost mut n: int = 0;
        proof {
            assert(all.take(0) =~= Seq::empty());
            assert(all.skip(0) =~= all);
        }
        loop
            invariant
                0 <= n <= all.len(),
                rest@ == all.skip(n),
                self.wf(),
                self.systems@ == old(self).systems@,
                self.component_mappers@.dom() == managed,
                deferred::messages_ok(all, managed),
                asked_for(rest@) <= self.spec_em().spec_room(),
                states.len() == n + 1,
                states[0] == old(self).snapshot(),
                states[n] == self.snapshot(),
                all_processed(states, all.take(n)),
                forall|id: ComponentId| #[trigger]
                    held(edit_holders@, id) == edits_of(all.take(n), id),
                forall|id: ComponentId| #[trigger]
                    edit_holders@.contains_key(id) ==> managed.contains(id),
            ensures
                n == all.len(),
            decreases rest@.len(),
        {
            broadcast use vstd::std_specs::hash::group_hash_axioms;

            let ghost before = *self;
            let ghost holders = edit_holders@;
            let ghost msg = rest@[0];
            proof {
                if rest@.len() > 0 {
                    assert(all.skip(n)[0] == all[n]);
                    assert(all.skip(n).drop_first() =~= all.skip(n + 1));
                    lemma_asked_for(rest@.drop_first());
                    assert(deferred::message_ok(all[n], managed));
                }
            }
            match rest.pop_front() {
                None => {
                    break;
                },
                Some(message) => {
                    match message {
                        Message::Next(count, components) => {
                            self.spawn(count, components);
                        },
                        Message::Edit(id, edits) => {
                            let mut holder = match edit_holders.remove(&id) {
                                Some(holder) => holder,
                                None => TypedEditHolder::new(),
                            };
                            holder.push(edits);
                            edit_holders.insert(id, holder);
                        },
                        Message::Destroy(e) => {
                            if self.entity_manager.is_alive(e) {
                                self.entity_manager.destroy_entity(e);
                            }
                            assert(self.snapshot().living =~= before.snapshot().living.remove(e));
                        },
                        Message::Prune(id) => {
                            prune(self.component_mappers.get_mapper_mut(id), &self.entity_manager);
                            proof {
                                assert(self.component_mappers@.dom() =~= managed);
                                assert(self.snapshot().data =~= before.snapshot().data.insert(
                                    id,
                                    before.snapshot().data[id].restrict(
                                        before.snapshot().living,
                                    ),
                                ));
                            }
                        },
                    }
                    proof {
                        let more = all.take(n + 1);
                        assert(more.drop_last() =~= all.take(n));
                        assert(more.last() == msg);
                        assert(processed(before.snapshot(), msg, self.snapshot()));
                        let states2 = states.push(self.snapshot());
                        assert forall|k: int| 0 <= k < more.len() implies processed(
                            states2[k],
                            #[trigger] more[k],
                            states2[k + 1],
                        ) by {
                            if k < n {
                                assert(all.take(n)[k] == more[k]);
                                assert(states2[k] == states[k]);
                                assert(states2[k + 1] == states[k + 1]);
                            }
                        }
                        assert forall|id: ComponentId| #[trigger]
                            held(edit_holders@, id) == edits_of(more, id) by {
                            assert(held(holders, id) == edits_of(all.take(n), id));
                        }
                        states = states2;
                        n = n + 1;
                    }
                },
            }
        }
        assert(all.take(n) =~= all);
        let ghost mid = self.snapshot();
        let ids = keys_of(&edit_holders);
        let mut k: usize = 0;
        proof {
            assert(ids@.take(0) =~= Seq::empty());
            assert(data_of(self.component_mappers@) =~= mid.data);
        }
        while k < ids.len()
            invariant
                k <= ids@.len(),
                self.wf(),
                self.systems@ == old(self).systems@,
                self.component_mappers@.dom() == managed,
                self.snapshot().living == mid.living,
                self.snapshot().names == mid.names,
                mid.data.dom() == managed,
                ids@.no_duplicates(),
                forall|id: ComponentId| #[trigger]
                    ids@.contains(id) <==> edit_holders@.contains_key(id),
                forall|id: ComponentId| #[trigger]
                    held(edit_holders@, id) == edits_of(all, id),
                forall|id: ComponentId| #[trigger]
                    edit_holders@.contains_key(id) ==> managed.contains(id),
                forall|id: ComponentId| #[trigger]
                    managed.contains(id) ==> self.component_mappers@[id].data() == if ids@.take(
                        k as int,
                    ).contains(id) {
                        deferred::edited(edits_of(all, id), mid.living, mid.data[id])
                    } else {
                        mid.data[id]
                    },
            decreases ids@.len() - k,
        {
            broadcast use vstd::std_specs::hash::group_hash_axioms;

            let id: ComponentId = ids[k];
            let ghost before = self.component_mappers@;
            proof {
                assert(ids@.contains(id));
                assert(managed.contains(id));
                mapper::lemma_take_more(ids@, k as int);
                assert(!ids@.take(k as int).contains(id)) by {
                    if ids@.take(k as int).contains(id) {
                        let i = choose|i: int| 0 <= i < k && ids@.take(k as int)[i] == id;
                        assert(ids@[i] == ids@[k as int]);
                    }
                }
                assert(held(edit_holders@, id) == edits_of(all, id));
            }
            if let Some(holder) = edit_holders.get(&id) {
                holder.apply(self.component_mappers.get_mapper_mut(id), &self.entity_manager);
            }
            proof {
                assert(self.component_mappers@.dom() =~= managed);
                assert forall|i: ComponentId| #[trigger]
                    managed.contains(i) implies self.component_mappers@[i].data() == if ids@.take(
                    k + 1,
                ).contains(i) {
                    deferred::edited(edits_of(all, i), mid.living, mid.data[i])
                } else {
                    mid.data[i]
                } by {
                    if i != id {
                        assert(self.component_mappers@[i] == before[i]);
                    }
                }
            }
            k = k + 1;
        }
        proof {
            assert(ids@.take(k as int) =~= ids@);
            let end = after_edits::<E>(mid, all);
            assert forall|id: ComponentId| managed.contains(id) implies #[trigger] end.data[id]
                == self.component_mappers@[id].data() by {
                assert(held(edit_holders@, id) == edits_of(all, id));
                if !ids@.contains(id) {
                    assert(end.data[id] =~= mid.data[id]);
                }
            }
            assert(self.snapshot().data =~= end.data);
            assert(all_processed(states, all));
            assert(states.last() == mid);
        }
    }

    /// Processes all the systems in this world, in order, and then the messages that they
    /// send. If these ask for more entities than there are slots for, none is processed.
    pub fn process_systems<E: ComponentEdit<Item = M::Component>>(&mut self) -> (r: bool) where
        M::Component: Clone,
        S: System<M, E>,

        requires
            old(self).wf(),
        ensures
            final(self).wf(),
            final(self).spec_mappers()@.dom() == old(self).spec_mappers()@.dom(),
            exists|msgs: Seq<Message<M::Component, E>>, ends: Seq<int>|
                {
                    &&& #[trigger] all_ran::<M, E, S>(
                        old(self).spec_systems(),
                        old(self).spec_em(),
                        old(self).spec_mappers(),
                        final(self).spec_systems(),
                        msgs,
                        ends,
                    )
                    &&& r == (asked_for(msgs) <= old(self).spec_em().spec_room())
                    &&& if r {
                        exists|states: Seq<Snapshot<M::Component>>|
                            {
                                &&& #[trigger] all_processed(states, msgs)
                                &&& states[0] == old(self).snapshot()
                                &&& final(self).snapshot() == after_edits::<E>(states.last(), msgs)
                            }
                    } else {
                        &&& final(self).spec_em() == old(self).spec_em()
                        &&& final(self).spec_mappers() == old(self).spec_mappers()
                    }
                },
    {
        let messages = self.run_systems::<E>();
        if !self.enough_slots(&messages) {
            return false;
        }
        self.process_messages(messages);
        true
    }

    /// Whether there are slots for the entities that messages ask for.
    pub fn enough_slots<E>(&self, messages: &VecDeque<Message<M::Component, E>>) -> (r: bool)
        requires
            self.wf(),
        ensures
            r == (asked_for(messages@) <= self.spec_em().spec_room()),
    {
        let mut left: usize = self.entity_manager.room();
        let mut n: usize = 0;
        assert(messages@.skip(0) =~= messages@);
        while n < messages.len()
            invariant
                n <= messages@.len(),
                left - asked_for(messages@.skip(n as int)) == self.spec_em().spec_room()
                    - asked_for(messages@),
            decreases messages@.len() - n,
        {
            proof {
                assert(messages@.skip(n as int)[0] == messages@[n as int]);
                assert(messages@.skip(n as int).drop_first() =~= messages@.skip(n + 1));
                lemma_asked_for(messages@.skip(n + 1));
            }
            if let Message::Next(count, _) = &messages[n] {
                if *count > left {
                    return false;
                }
                left = left - *count;
            }
            n = n + 1;
        }
        assert(messages@.skip(n as int) =~= Seq::empty());
        true
    }
}

// the edits held for a component.
spec fn held<E: ComponentEdit>(
    holders: Map<ComponentId, TypedEditHolder<E>>,
    id: ComponentId,
) -> Map<Entity, deferred::ComponentEdits<E>> {
    if holders.contains_key(id) {
        holders[id]@
    } else {
        Map::empty()
    }
}

/// Factory for `World`.
pub struct WorldBuilder<M, S> {
    component_mappers: ComponentMappers<M>,
    systems: Vec<S>,
}

impl<M: ComponentMapper, S> WorldBuilder<M, S> {
    /// The component mappers.
    pub closed spec fn spec_mappers(&self) -> ComponentMappers<M> {
        self.component_mappers
    }

    /// The systems.
    pub closed spec fn spec_systems(&self) -> Seq<S> {
        self.systems@
    }

    /// Create a new `WorldBuilder`.
    pub fn new() -> (r: Self)
        ensures
            r.spec_mappers()@ == Map::<ComponentId, M>::empty(),
            r.spec_systems() == Seq::<S>::empty(),
    {
        WorldBuilder { component_mappers: ComponentMappers::new(), systems: Vec::new() }
    }

    /// Add a component mapper to this world.
    pub fn with_component_mapper(self, id: ComponentId, mapper: M) -> (r: Self)
        ensures
            r.spec_mappers()@ == self.spec_mappers()@.insert(id, mapper),
            r.spec_systems() == self.spec_systems(),
    {
        let mut s = self;
        s.component_mappers.insert(id, mapper);
        s
    }

    /// Add a system to this world.
    pub fn with_system(self, sys: S) -> (r: Self)
        ensures
            r.spec_mappers() == self.spec_mappers(),
            r.spec_systems() == self.spec_systems().push(sys),
    {
        let mut s = self;
        s.systems.push(sys);
        s
    }

    /// Builds a world from self.
    pub fn build(self) -> (r: World<M, S>)
        requires
            self.spec_mappers().wf(),
        ensures
            r.wf(),
            r.spec_mappers() == self.spec_mappers(),
            r.spec_em().living() == Map::<Entity, super::block::Offset>::empty(),
            r.spec_em().slots() == 0,
            r.spec_em().waiting().len() == 0,
            r.spec_em().history() == Seq::<Entity>::empty(),
            r.spec_systems() == self.spec_systems(),
    {
        let entity_manager = EntityManager::new();
        assert(entity_manager.history() =~= Seq::<Entity>::empty());
        World {
            entity_manager,
            component_mappers: self.component_mappers,
            systems: self.systems,
        }
    }
}

impl<M, S> World<M, S> {
    /// The systems.
    pub closed spec fn spec_systems(&self) -> Seq<S> {
        self.systems@
    }
}

/// The edits of a component of one entity that the messages ask for, in order.
pub open spec fn edits_in<C, E>(msgs: Seq<Message<C, E>>, id: ComponentId, e: Entity) -> Seq<E> {
    msgs.map_values(
        |msg: Message<C, E>|
            match msg {
                Message::Edit(i, list) => if i == id {
                    deferred::edits_for(list@, e)
                } else {
                    Seq::empty()
                },
                _ => Seq::empty(),
            },
    ).flatten()
}

/// How many entities the messages ask for, in all.
pub open spec fn count_asked<C, E>(msgs: Seq<Message<C, E>>) -> int {
    msgs.map_values(
        |msg: Message<C, E>|
            match msg {
                Message::Next(n, _) => n as int,
                _ => 0,
            },
    ).fold_left(0, |a: int, b: int| a + b)
}

/// None of the messages asks for the end of the entity.
pub open spec fn spared<C, E>(msgs: Seq<Message<C, E>>, e: Entity) -> bool {
    forall|k: int|
        0 <= k < msgs.len() ==> !((#[trigger] msgs[k]) is Destroy && msgs[k]->Destroy_0 == e)
}

// one more message.
proof fn lemma_edits_in_push<C, E>(
    msgs: Seq<Message<C, E>>,
    msg: Message<C, E>,
    id: ComponentId,
    e: Entity,
)
    ensures
        edits_in(msgs.push(msg), id, e) == edits_in(msgs, id, e) + match msg {
            Message::Edit(i, list) => if i == id {
                deferred::edits_for(list@, e)
            } else {
                Seq::empty()
            },
            _ => Seq::empty(),
        },
{
    let f = |msg: Message<C, E>|
        match msg {
            Message::Edit(i, list) => if i == id {
                deferred::edits_for(list@, e)
            } else {
                Seq::empty()
            },
            _ => Seq::empty(),
        };
    assert(msgs.push(msg).map_values(f) =~= msgs.map_values(f).push(f(msg)));
    msgs.map_values(f).lemma_flatten_push(f(msg));
}

// the edits that are held for an entity.
proof fn lemma_edits_of<C, E: ComponentEdit>(msgs: Seq<Message<C, E>>, id: ComponentId, e: Entity)
    ensures
        edits_of(msgs, id).contains_key(e) <==> 0 < edits_in(msgs, id, e).len(),
        edits_of(msgs, id).contains_key(e) ==> edits_of(msgs, id)[e] == deferred::collected(
            deferred::ComponentEdits { nc: None, c: None },
            edits_in(msgs, id, e),
        ),
    decreases msgs.len(),
{
    let none = deferred::ComponentEdits::<E> { nc: None, c: None };
    if msgs.len() == 0 {
        assert(msgs =~= Seq::empty());
        assert(edits_in(msgs, id, e) =~= Seq::<E>::empty());
    } else {
        let init = msgs.drop_last();
        let msg = msgs.last();
        assert(init.push(msg) =~= msgs);
        lemma_edits_of(init, id, e);
        lemma_edits_in_push(init, msg, id, e);
        let before = edits_in(init, id, e);
        match msg {
            Message::Edit(i, list) => {
                if i == id {
                    let more = deferred::edits_for(list@, e);
                    deferred::law_edits_go_to_their_entities(edits_of(init, id), list@, e);
                    deferred::lemma_collected_add(none, before, more);
                    if before.len() == 0 {
                        assert(before =~= Seq::<E>::empty());
                        assert(deferred::collected(none, before) == none);
                    }
                } else {
                    assert(before + Seq::empty() =~= before);
                }
            },
            _ => {
                assert(before + Seq::empty() =~= before);
            },
        }
    }
}

// one more message.
proof fn lemma_count_push<C, E>(msgs: Seq<Message<C, E>>, msg: Message<C, E>)
    ensures
        count_asked(msgs.push(msg)) == count_asked(msgs) + match msg {
            Message::Next(n, _) => n as int,
            _ => 0,
        },
{
    let f = |msg: Message<C, E>|
        match msg {
            Message::Next(n, _) => n as int,
            _ => 0,
        };
    assert(msgs.push(msg).map_values(f) =~= msgs.map_values(f).push(f(msg)));
    assert(msgs.map_values(f).push(f(msg)).drop_last() =~= msgs.map_values(f));
}

// counting from the front comes to the same.
proof fn lemma_count<C, E>(msgs: Seq<Message<C, E>>)
    ensures
        count_asked(msgs) == asked_for(msgs),
    decreases msgs.len(),
{
    if msgs.len() == 0 {
        assert(msgs =~= Seq::empty());
    } else {
        let init = msgs.drop_last();
        lemma_count(init);
        assert(init.push(msgs.last()) =~= msgs);
        lemma_count_push(init, msgs.last());
        lemma_asked_push(init, msgs.last());
    }
}

// one more message at the end.
proof fn lemma_asked_push<C, E>(msgs: Seq<Message<C, E>>, msg: Message<C, E>)
    ensures
        asked_for(msgs.push(msg)) == asked_for(msgs) + match msg {
            Message::Next(n, _) => n as int,
            _ => 0,
        },
    decreases msgs.len(),
{
    let all = msgs.push(msg);
    if msgs.len() == 0 {
        assert(all.drop_first() =~= Seq::empty());
        assert(asked_for(all.drop_first()) == 0);
    } else {
        assert(all.drop_first() =~= msgs.drop_first().push(msg));
        assert(all[0] == msgs[0]);
        lemma_asked_push(msgs.drop_first(), msg);
    }
}

// the entities that were created by the first messages.
proof fn lemma_created<C: Clone, E>(states: Seq<Snapshot<C>>, msgs: Seq<Message<C, E>>, n: int)
    requires
        all_processed(states, msgs),
        0 <= n <= msgs.len(),
    ensures
        states[0].names.history.is_prefix_of(states[n].names.history),
        states[n].names.history.len() == states[0].names.history.len() + count_asked(msgs.take(n)),
        forall|id: ComponentId| #[trigger]
            states[0].data.contains_key(id) ==> states[n].data.contains_key(id),
    decreases n,
{
    if n == 0 {
        assert(msgs.take(0) =~= Seq::empty());
    } else {
        lemma_created(states, msgs, n - 1);
        assert(processed(states[n - 1], msgs[n - 1], states[n]));
        assert(msgs.take(n) =~= msgs.take(n - 1).push(msgs[n - 1]));
        lemma_count_push(msgs.take(n - 1), msgs[n - 1]);
        assert forall|id: ComponentId| #[trigger] states[0].data.contains_key(id) implies states[
        n].data.contains_key(id) by {
            assert(states[n - 1].data.contains_key(id));
        }
    }
}

// an entity that lives and is spared lives on, with its data.
proof fn lemma_lives_on<C: Clone, E>(
    states: Seq<Snapshot<C>>,
    msgs: Seq<Message<C, E>>,
    from: int,
    n: int,
    e: Entity,
)
    requires
        all_processed(states, msgs),
        0 <= from <= n <= msgs.len(),
        states[from].living.contains(e),
        forall|k: int|
            from <= k < msgs.len() ==> !((#[trigger] msgs[k]) is Destroy && msgs[k]->Destroy_0
                == e),
    ensures
        states[n].living.contains(e),
        forall|id: ComponentId| #[trigger]
            states[from].data.contains_key(id) ==> {
                &&& states[n].data.contains_key(id)
                &&& states[n].data[id].contains_key(e) == states[from].data[id].contains_key(e)
                &&& states[from].data[id].contains_key(e) ==> states[n].data[id][e]
                    == states[from].data[id][e]
            },
    decreases n - from,
{
    if n > from {
        lemma_lives_on(states, msgs, from, n - 1, e);
        let before = states[n - 1];
        let after = states[n];
        assert(processed(before, msgs[n - 1], after));
        assert forall|id: ComponentId| #[trigger] states[from].data.contains_key(id) implies {
            &&& after.data.contains_key(id)
            &&& after.data[id].contains_key(e) == states[from].data[id].contains_key(e)
            &&& states[from].data[id].contains_key(e) ==> after.data[id][e]
                == states[from].data[id][e]
        } by {
            assert(before.data.contains_key(id));
            match msgs[n - 1] {
                Message::Next(count, components) => {
                    let new = before.names.upcoming(count as nat).to_set();
                    assert(!new.contains(e));
                    assert(given(
                        before.data[id],
                        after.data[id],
                        data_for(components@, id),
                        new,
                    ));
                    assert(after.data[id].dom().contains(e) == before.data[id].dom().contains(e));
                },
                _ => {},
            }
        }
    }
}

// nobody comes to life but those that are created.
proof fn lemma_who_lives<C: Clone, E>(
    states: Seq<Snapshot<C>>,
    msgs: Seq<Message<C, E>>,
    from: int,
    n: int,
    e: Entity,
)
    requires
        all_processed(states, msgs),
        0 <= from <= n <= msgs.len(),
        states[n].living.contains(e),
    ensures
        states[from].living.contains(e) || states[n].names.history.skip(
            states[from].names.history.len() as int,
        ).contains(e),
    decreases n - from,
{
    if n > from {
        let before = states[n - 1];
        let after = states[n];
        let start = states[from].names.history.len() as int;
        assert(processed(before, msgs[n - 1], after));
        lemma_prefix(states, msgs, from, n - 1);
        if before.living.contains(e) {
            lemma_who_lives(states, msgs, from, n - 1, e);
            if !states[from].living.contains(e) {
                let old = before.names.history.skip(start);
                let i = choose|i: int| 0 <= i < old.len() && old[i] == e;
                assert(after.names.history.skip(start)[i] == e);
            }
        } else {
            match msgs[n - 1] {
                Message::Next(count, components) => {
                    let new = before.names.upcoming(count as nat);
                    assert(new.to_set().contains(e));
                    let i = choose|i: int| 0 <= i < new.len() && new[i] == e;
                    let at = before.names.history.len() - start + i;
                    assert(after.names.history.skip(start)[at] == e);
                },
                _ => {},
            }
        }
    }
}

// an entity that was destroyed stays dead as long as none is created.
proof fn lemma_stays_dead<C: Clone, E>(
    states: Seq<Snapshot<C>>,
    msgs: Seq<Message<C, E>>,
    from: int,
    n: int,
    e: Entity,
)
    requires
        all_processed(states, msgs),
        0 <= from <= n <= msgs.len(),
        !states[from].living.contains(e),
        forall|k: int| from <= k < n ==> !((#[trigger] msgs[k]) is Next),
    ensures
        !states[n].living.contains(e),
    decreases n - from,
{
    if n > from {
        lemma_stays_dead(states, msgs, from, n - 1, e);
        assert(processed(states[n - 1], msgs[n - 1], states[n]));
    }
}

// the data of the dead stays until it is pruned.
proof fn lemma_dead_data<C: Clone, E>(
    states: Seq<Snapshot<C>>,
    msgs: Seq<Message<C, E>>,
    n: int,
    e: Entity,
    id: ComponentId,
)
    requires
        all_processed(states, msgs),
        0 <= n <= msgs.len(),
        !states[0].living.contains(e),
        states[0].data.contains_key(id),
        forall|k: int| 0 <= k < n ==> !((#[trigger] msgs[k]) is Next),
    ensures
        states[n].data.contains_key(id),
        ({
            let pruned = exists|k: int|
                0 <= k < n && (#[trigger] msgs[k]) is Prune && msgs[k]->Prune_0 == id;
            &&& states[n].data[id].contains_key(e) == (states[0].data[id].contains_key(e)
                && !pruned)
            &&& states[n].data[id].contains_key(e) ==> states[n].data[id][e]
                == states[0].data[id][e]
        }),
    decreases n,
{
    if n > 0 {
        lemma_dead_data(states, msgs, n - 1, e, id);
        lemma_stays_dead(states, msgs, 0, n - 1, e);
        assert(processed(states[n - 1], msgs[n - 1], states[n]));
        let before_pruned = exists|k: int|
            0 <= k < n - 1 && (#[trigger] msgs[k]) is Prune && msgs[k]->Prune_0 == id;
        let pruned = exists|k: int|
            0 <= k < n && (#[trigger] msgs[k]) is Prune && msgs[k]->Prune_0 == id;
        if msgs[n - 1] is Prune && msgs[n - 1]->Prune_0 == id {
            assert(pruned);
        } else if pruned {
            let k = choose|k: int|
                0 <= k < n && (#[trigger] msgs[k]) is Prune && msgs[k]->Prune_0 == id;
            assert(k < n - 1);
            assert(before_pruned);
        }
    }
}

// of data for the same component the last counts.
proof fn lemma_data_for<C>(components: Seq<(ComponentId, C)>, id: ComponentId, last: int)
    requires
        0 <= last < components.len(),
        components[last].0 == id,
        forall|j: int| last < j < components.len() ==> (#[trigger] components[j]).0 != id,
    ensures
        data_for(components, id) == Some(components[last].1),
    decreases components.len(),
{
    if last < components.len() - 1 {
        assert(components[components.len() - 1].0 != id);
        lemma_data_for(components.drop_last(), id, last);
    }
}

/// What processing messages comes to, in terms of the messages.
pub open spec fn took_effect<M: ComponentMapper, E: ComponentEdit<Item = M::Component>>(
    em: EntityManager,
    mappers: Map<ComponentId, M>,
    msgs: Seq<Message<M::Component, E>>,
    em2: EntityManager,
    mappers2: Map<ComponentId, M>,
) -> bool where M::Component: Clone {
    let new = em2.history().skip(em.history().len() as int);
    let none = deferred::ComponentEdits::<E> { nc: None, c: None };
    // the entities asked for are created, in order, and no others.
    &&& em.history().is_prefix_of(em2.history())
    &&& new.len() == count_asked(msgs)
    // those live that lived or were created, but for the ones that were destroyed.
    &&& forall|e: Entity| #[trigger]
        em2.living().contains_key(e) ==> em.living().contains_key(e) || new.contains(e)
    &&& forall|e: Entity|
        spared(msgs, e) && (em.living().contains_key(e) || new.contains(e))
            ==> #[trigger] em2.living().contains_key(e)
    &&& forall|e: Entity, k: int|
        0 <= k < msgs.len() && (#[trigger] msgs[k]) is Destroy && msgs[k]->Destroy_0 == e
            && #[trigger] em2.living().contains_key(e) ==> new.skip(
            count_asked(msgs.take(k)),
        ).contains(e)
    // as long as none is destroyed, the names are those that the manager gives at once.
    &&& (forall|k: int| 0 <= k < msgs.len() ==> !((#[trigger] msgs[k]) is Destroy)) ==> em2.names()
        == em.names().created(new.len()) && new == em.names().upcoming(new.len())
    // the data of an entity that lives on is changed by its own edits alone.
    &&& mappers2.dom() == mappers.dom()
    &&& forall|id: ComponentId, e: Entity|
        mappers.contains_key(id) && em.living().contains_key(e) && spared(msgs, e) ==> {
            &&& (#[trigger] mappers2[id].data().contains_key(e)) == mappers[id].data().contains_key(e)
            &&& mappers[id].data().contains_key(e) ==> mappers2[id].data()[e]
                == deferred::collected(none, edits_in(msgs, id, e)).applied(mappers[id].data()[e])
        }
    // an entity that is created gets the last data that it was asked for with.
    &&& forall|id: ComponentId, k: int, i: int, last: int|
        #![trigger msgs[k]->Next_1@[last], mappers2[id].data(), new[count_asked(msgs.take(k)) + i]]
        mappers.contains_key(id) && 0 <= k < msgs.len() && msgs[k] is Next && 0 <= i
            < msgs[k]->Next_0 && 0 <= last < msgs[k]->Next_1@.len() && msgs[k]->Next_1@[last].0
            == id && (forall|j: int|
            last < j < msgs[k]->Next_1@.len() ==> (#[trigger] msgs[k]->Next_1@[j]).0 != id)
            && spared(msgs, new[count_asked(msgs.take(k)) + i]) ==> exists|c: M::Component|
            {
                let e = new[count_asked(msgs.take(k)) + i];
                &&& #[trigger] cloned(msgs[k]->Next_1@[last].1, c)
                &&& mappers2[id].data().contains_key(e)
                &&& mappers2[id].data()[e] == deferred::collected(
                    none,
                    edits_in(msgs, id, e),
                ).applied(c)
            }
    // nobody else gets data.
    &&& forall|id: ComponentId, e: Entity|
        mappers.contains_key(id) && #[trigger] mappers2[id].data().contains_key(e)
            ==> mappers[id].data().contains_key(e) || exists|k: int, i: int, j: int|
            {
                &&& 0 <= k < msgs.len() && msgs[k] is Next
                &&& 0 <= i < msgs[k]->Next_0
                &&& 0 <= j < msgs[k]->Next_1@.len() && (#[trigger] msgs[k]->Next_1@[j]).0 == id
                &&& #[trigger] new[count_asked(msgs.take(k)) + i] == e
            }
    // where none is created, the data of the dead stays until it is pruned.
    &&& (forall|k: int| 0 <= k < msgs.len() ==> !((#[trigger] msgs[k]) is Next)) ==> forall|
        id: ComponentId,
        e: Entity,
    |
        mappers.contains_key(id) && !em.living().contains_key(e) ==> {
            &&& (#[trigger] mappers2[id].data().contains_key(e)) == (
            mappers[id].data().contains_key(e) && !(exists|k: int|
                0 <= k < msgs.len() && (#[trigger] msgs[k]) is Prune && msgs[k]->Prune_0 == id))
            &&& mappers2[id].data().contains_key(e) ==> mappers2[id].data()[e]
                == mappers[id].data()[e]
        }
}

// messages that were processed in turn took effect.
#[verifier::spinoff_prover]
#[verifier::rlimit(40)]
proof fn lemma_took_effect<M: ComponentMapper, S, E: ComponentEdit<Item = M::Component>>(
    before: World<M, S>,
    msgs: Seq<Message<M::Component, E>>,
    after: World<M, S>,
    states: Seq<Snapshot<M::Component>>,
) where M::Component: Clone
    requires
        all_processed(states, msgs),
        states[0] == before.snapshot(),
        after.snapshot() == after_edits::<E>(states.last(), msgs),
        after.spec_mappers()@.dom() == before.spec_mappers()@.dom(),
        before.spec_em().wf(),
    ensures
        took_effect(
            before.spec_em(),
            before.spec_mappers()@,
            msgs,
            after.spec_em(),
            after.spec_mappers()@,
        ),
{
    let em = before.spec_em();
    let em2 = after.spec_em();
    let mappers = before.spec_mappers()@;
    let mappers2 = after.spec_mappers()@;
    let none = deferred::ComponentEdits::<E> { nc: None, c: None };
    let n = msgs.len() as int;
    let start = em.history().len() as int;
    let new = em2.history().skip(start);
    let last_state = states[n];
    assert(states.last() == last_state);
    lemma_created(states, msgs, n);
    assert(msgs.take(n) =~= msgs);
    assert(em2.history() == last_state.names.history);
    assert(em.history() == states[0].names.history);
    assert forall|id: ComponentId| #[trigger] mappers.contains_key(id) implies {
        &&& states[0].data.contains_key(id)
        &&& states[0].data[id] == mappers[id].data()
        &&& last_state.data.contains_key(id)
        &&& mappers2[id].data() == deferred::edited(
            edits_of(msgs, id),
            last_state.living,
            last_state.data[id],
        )
    } by {
        assert(mappers2.contains_key(id));
        assert(after.snapshot().data[id] == mappers2[id].data());
    }
    assert forall|e: Entity| #[trigger] em2.living().contains_key(e) implies em.living().contains_key(
        e,
    ) || new.contains(e) by {
        assert(last_state.living.contains(e));
        lemma_who_lives(states, msgs, 0, n, e);
    }
    assert forall|e: Entity|
        spared(msgs, e) && (em.living().contains_key(e) || new.contains(e)) implies #[trigger] em2.living().contains_key(
        e,
    ) by {
        if em.living().contains_key(e) {
            assert(states[0].living.contains(e));
            lemma_lives_on(states, msgs, 0, n, e);
        } else {
            let i = choose|i: int| 0 <= i < new.len() && new[i] == e;
            let k = lemma_creator(states, msgs, n, start + i);
            lemma_lives_on(states, msgs, k + 1, n, e);
        }
        assert(last_state.living.contains(e));
    }
    assert forall|e: Entity, k: int|
        0 <= k < msgs.len() && (#[trigger] msgs[k]) is Destroy && msgs[k]->Destroy_0 == e
            && #[trigger] em2.living().contains_key(e) implies new.skip(
        count_asked(msgs.take(k)),
    ).contains(e) by {
        assert(processed(states[k], msgs[k], states[k + 1]));
        assert(last_state.living.contains(e));
        lemma_created(states, msgs, k);
        lemma_prefix(states, msgs, k + 1, n);
        lemma_who_lives(states, msgs, k + 1, n, e);
        assert(states[k + 1].names.history.len() == start + count_asked(msgs.take(k)));
        let later = em2.history().skip(start + count_asked(msgs.take(k)));
        assert(later =~= new.skip(count_asked(msgs.take(k))));
    }
    if forall|k: int| 0 <= k < msgs.len() ==> !((#[trigger] msgs[k]) is Destroy) {
        em.lemma_waiting();
        lemma_names(states, msgs, n);
        assert(em.names() == states[0].names);
        assert(new =~= em.names().upcoming(new.len()));
    }
    assert forall|id: ComponentId, e: Entity|
        mappers.contains_key(id) && em.living().contains_key(e) && spared(msgs, e) implies {
        &&& (#[trigger] mappers2[id].data().contains_key(e)) == mappers[id].data().contains_key(e)
        &&& mappers[id].data().contains_key(e) ==> mappers2[id].data()[e] == deferred::collected(
            none,
            edits_in(msgs, id, e),
        ).applied(mappers[id].data()[e])
    } by {
        assert(states[0].living.contains(e));
        lemma_lives_on(states, msgs, 0, n, e);
        lemma_edits_of(msgs, id, e);
        assert(states[0].data.contains_key(id));
        lemma_no_edits::<E>(edits_in(msgs, id, e), mappers[id].data()[e]);
    }
    assert forall|id: ComponentId, k: int, i: int, last: int|
        #![trigger msgs[k]->Next_1@[last], mappers2[id].data(), new[count_asked(msgs.take(k)) + i]]
        mappers.contains_key(id) && 0 <= k < msgs.len() && msgs[k] is Next && 0 <= i
            < msgs[k]->Next_0 && 0 <= last < msgs[k]->Next_1@.len() && msgs[k]->Next_1@[last].0
            == id && (forall|j: int|
            last < j < msgs[k]->Next_1@.len() ==> (#[trigger] msgs[k]->Next_1@[j]).0 != id)
            && spared(msgs, new[count_asked(msgs.take(k)) + i]) implies exists|c: M::Component|
        {
            let e = new[count_asked(msgs.take(k)) + i];
            &&& #[trigger] cloned(msgs[k]->Next_1@[last].1, c)
            &&& mappers2[id].data().contains_key(e)
            &&& mappers2[id].data()[e] == deferred::collected(
                none,
                edits_in(msgs, id, e),
            ).applied(c)
        } by {
        let at = count_asked(msgs.take(k)) + i;
        let e = new[at];
        let components = msgs[k]->Next_1@;
        lemma_created(states, msgs, k);
        assert(processed(states[k], msgs[k], states[k + 1]));
        let fresh = states[k].names.upcoming(msgs[k]->Next_0 as nat);
        lemma_prefix(states, msgs, k + 1, n);
        assert(states[k + 1].names.history[start + at] == fresh[i]);
        assert(e == fresh[i]);
        assert(fresh.to_set().contains(e));
        lemma_data_for(components, id, last);
        assert(states[0].data.contains_key(id));
        assert(states[k].data.contains_key(id));
        assert(given(
            states[k].data[id],
            states[k + 1].data[id],
            data_for(components, id),
            fresh.to_set(),
        ));
        assert(states[k + 1].data[id].dom().contains(e));
        assert(states[k + 1].data[id].contains_key(e));
        let c = states[k + 1].data[id][e];
        assert(cloned(components[last].1, c));
        lemma_lives_on(states, msgs, k + 1, n, e);
        assert(states[k + 1].data.contains_key(id));
        lemma_edits_of(msgs, id, e);
        lemma_no_edits::<E>(edits_in(msgs, id, e), c);
    }
    assert forall|id: ComponentId, e: Entity|
        mappers.contains_key(id) && #[trigger] mappers2[id].data().contains_key(
            e,
        ) implies mappers[id].data().contains_key(e) || exists|k: int, i: int, j: int|
        {
            &&& 0 <= k < msgs.len() && msgs[k] is Next
            &&& 0 <= i < msgs[k]->Next_0
            &&& 0 <= j < msgs[k]->Next_1@.len() && (#[trigger] msgs[k]->Next_1@[j]).0 == id
            &&& #[trigger] new[count_asked(msgs.take(k)) + i] == e
        } by {
        assert(states[0].data.contains_key(id));
        if !mappers[id].data().contains_key(e) {
            let (k, i, j) = lemma_giver(states, msgs, n, id, e);
            lemma_created(states, msgs, k);
            lemma_prefix(states, msgs, k + 1, n);
            assert(processed(states[k], msgs[k], states[k + 1]));
            let at = count_asked(msgs.take(k)) + i;
            assert(states[k + 1].names.history[start + at] == e);
            assert(new[at] == e);
            assert(msgs[k]->Next_1@[j].0 == id);
        }
    }
    if forall|k: int| 0 <= k < msgs.len() ==> !((#[trigger] msgs[k]) is Next) {
        assert forall|id: ComponentId, e: Entity|
            mappers.contains_key(id) && !em.living().contains_key(e) implies {
            &&& (#[trigger] mappers2[id].data().contains_key(e)) == (
            mappers[id].data().contains_key(e) && !(exists|k: int|
                0 <= k < msgs.len() && (#[trigger] msgs[k]) is Prune && msgs[k]->Prune_0 == id))
            &&& mappers2[id].data().contains_key(e) ==> mappers2[id].data()[e]
                == mappers[id].data()[e]
        } by {
            assert(!states[0].living.contains(e));
            assert(states[0].data.contains_key(id));
            lemma_dead_data(states, msgs, n, e, id);
            lemma_stays_dead(states, msgs, 0, n, e);
        }
    }
}

// the message that gave an entity its data for a component.
proof fn lemma_giver<C: Clone, E>(
    states: Seq<Snapshot<C>>,
    msgs: Seq<Message<C, E>>,
    n: int,
    id: ComponentId,
    e: Entity,
) -> (r: (int, int, int))
    requires
        all_processed(states, msgs),
        0 <= n <= msgs.len(),
        states[0].data.contains_key(id),
        states[n].data[id].contains_key(e),
        !states[0].data[id].contains_key(e),
    ensures
        0 <= r.0 < n,
        msgs[r.0] is Next,
        0 <= r.1 < msgs[r.0]->Next_0,
        states[r.0].names.upcoming(msgs[r.0]->Next_0 as nat)[r.1] == e,
        0 <= r.2 < msgs[r.0]->Next_1@.len(),
        msgs[r.0]->Next_1@[r.2].0 == id,
    decreases n,
{
    let before = states[n - 1];
    let after = states[n];
    assert(processed(before, msgs[n - 1], after));
    lemma_created(states, msgs, n - 1);
    assert(before.data.contains_key(id));
    if before.data[id].contains_key(e) {
        lemma_giver(states, msgs, n - 1, id, e)
    } else {
        match msgs[n - 1] {
            Message::Next(count, components) => {
                let new = before.names.upcoming(count as nat);
                assert(given(
                    before.data[id],
                    after.data[id],
                    data_for(components@, id),
                    new.to_set(),
                ));
                assert(after.data[id].dom().contains(e));
                assert(new.to_set().contains(e));
                let i = choose|i: int| 0 <= i < new.len() && new[i] == e;
                let j = lemma_data_from(components@, id);
                (n - 1, i, j)
            },
            _ => (0, 0, 0),
        }
    }
}

// the place of the data for a component.
proof fn lemma_data_from<C>(components: Seq<(ComponentId, C)>, id: ComponentId) -> (j: int)
    requires
        data_for(components, id) is Some,
    ensures
        0 <= j < components.len(),
        components[j].0 == id,
    decreases components.len(),
{
    if components.last().0 == id {
        components.len() - 1
    } else {
        lemma_data_from(components.drop_last(), id)
    }
}

// without edits, nothing changes.
proof fn lemma_no_edits<E: ComponentEdit>(list: Seq<E>, item: E::Item)
    ensures
        list.len() == 0 ==> deferred::collected(
            deferred::ComponentEdits { nc: None, c: None },
            list,
        ).applied(item) == item,
{
}

// what was created stays in the history.
proof fn lemma_prefix<C: Clone, E>(
    states: Seq<Snapshot<C>>,
    msgs: Seq<Message<C, E>>,
    from: int,
    n: int,
)
    requires
        all_processed(states, msgs),
        0 <= from <= n <= msgs.len(),
    ensures
        states[from].names.history.is_prefix_of(states[n].names.history),
    decreases n - from,
{
    if n > from {
        lemma_prefix(states, msgs, from, n - 1);
        assert(processed(states[n - 1], msgs[n - 1], states[n]));
    }
}

// the names as long as none is destroyed.
proof fn lemma_names<C: Clone, E>(states: Seq<Snapshot<C>>, msgs: Seq<Message<C, E>>, n: int)
    requires
        all_processed(states, msgs),
        0 <= n <= msgs.len(),
        forall|k: int| 0 <= k < msgs.len() ==> !((#[trigger] msgs[k]) is Destroy),
        states[0].names.valid(),
    ensures
        0 <= count_asked(msgs.take(n)),
        states[n].names == states[0].names.created(count_asked(msgs.take(n)) as nat),
    decreases n,
{
    let names = states[0].names;
    if n == 0 {
        assert(msgs.take(0) =~= Seq::empty());
        names.law_no_entity_changes_nothing();
    } else {
        lemma_names(states, msgs, n - 1);
        assert(processed(states[n - 1], msgs[n - 1], states[n]));
        assert(msgs.take(n) =~= msgs.take(n - 1).push(msgs[n - 1]));
        lemma_count_push(msgs.take(n - 1), msgs[n - 1]);
        if let Message::Next(count, components) = msgs[n - 1] {
            names.law_entities_can_be_created_bit_by_bit(
                count_asked(msgs.take(n - 1)) as nat,
                count as nat,
            );
        }
    }
}

// the message that an entity was created for.
proof fn lemma_creator<C: Clone, E>(
    states: Seq<Snapshot<C>>,
    msgs: Seq<Message<C, E>>,
    n: int,
    i: int,
) -> (k: int)
    requires
        all_processed(states, msgs),
        0 <= n <= msgs.len(),
        states[0].names.history.len() <= i < states[n].names.history.len(),
    ensures
        0 <= k < n,
        states[k + 1].living.contains(states[n].names.history[i]),
    decreases n,
{
    lemma_prefix(states, msgs, n - 1, n);
    if i < states[n - 1].names.history.len() {
        lemma_creator(states, msgs, n - 1, i)
    } else {
        let before = states[n - 1];
        assert(processed(before, msgs[n - 1], states[n]));
        match msgs[n - 1] {
            Message::Next(count, components) => {
                let new = before.names.upcoming(count as nat);
                assert(states[n].names.history[i] == new[i - before.names.history.len()]);
                assert(new.to_set().contains(new[i - before.names.history.len()]));
            },
            _ => {},
        }
        n - 1
    }
}

/// Processing messages creates the entities that they ask for, in order, destroys those that
/// they say, gives new entities their data, makes each edit of each component of the entities
/// that live on, and prunes what is to be pruned, wherever in the list the messages stand.
pub proof fn law_messages_take_effect<M: ComponentMapper, S, E: ComponentEdit<Item = M::Component>>(
    messages: VecDeque<Message<M::Component, E>>,
) where M::Component: Clone
    ensures
        forall|world: &mut World<M, S>| #[trigger]
            call_ensures(World::<M, S>::process_messages::<E>, (world, messages), ())
                && world.spec_em().wf() ==> took_effect(
                world.spec_em(),
                world.spec_mappers()@,
                messages@,
                final(world).spec_em(),
                final(world).spec_mappers()@,
            ) && final(world).spec_systems() == world.spec_systems(),
{
    assert forall|world: &mut World<M, S>| #[trigger]
        call_ensures(World::<M, S>::process_messages::<E>, (world, messages), ())
            && world.spec_em().wf() implies took_effect(
        world.spec_em(),
        world.spec_mappers()@,
        messages@,
        final(world).spec_em(),
        final(world).spec_mappers()@,
    ) && final(world).spec_systems() == world.spec_systems() by {
        let states = choose|states: Seq<Snapshot<M::Component>>|
            {
                &&& #[trigger] all_processed(states, messages@)
                &&& states[0] == world.snapshot()
                &&& final(world).snapshot() == after_edits::<E>(states.last(), messages@)
            };
        lemma_took_effect(*world, messages@, *final(world), states);
    }
}

// the messages between the ends of the systems, system by system.
proof fn lemma_lists<M: ComponentMapper, E, S: System<M, E>>(
    before: Seq<S>,
    em: EntityManager,
    mappers: ComponentMappers<M>,
    after: Seq<S>,
    sent: Seq<Message<M::Component, E>>,
    ends: Seq<int>,
    n: int,
)
    requires
        all_ran::<M, E, S>(before, em, mappers, after, sent, ends),
        0 <= n <= before.len(),
    ensures
        0 <= ends[n] <= sent.len(),
        sent.take(ends[n]) == Seq::new(n as nat, |k: int| sent.subrange(ends[k], ends[k + 1])).flatten(),
    decreases n,
{
    let f = |k: int| sent.subrange(ends[k], ends[k + 1]);
    let lists = Seq::new(n as nat, f);
    if n == 0 {
        assert(lists =~= Seq::empty());
        assert(sent.take(0) =~= lists.flatten());
    } else {
        lemma_lists::<M, E, S>(before, em, mappers, after, sent, ends, n - 1);
        let init = Seq::new((n - 1) as nat, f);
        assert(ran::<M, E, S>(
            before[n - 1],
            em,
            mappers,
            after[n - 1],
            sent,
            ends[n - 1],
            ends[n - 1 + 1],
        ));
        assert(lists =~= init.push(sent.subrange(ends[n - 1], ends[n])));
        init.lemma_flatten_push(sent.subrange(ends[n - 1], ends[n]));
        assert(sent.take(ends[n]) =~= sent.take(ends[n - 1]) + sent.subrange(ends[n - 1], ends[n]));
    }
}

/// Each system processes the world once, and the messages are those that the systems sent, one
/// system after the other: a list for each system.
pub open spec fn sent_by<M: ComponentMapper, E, S: System<M, E>>(
    before: Seq<S>,
    em: EntityManager,
    mappers: ComponentMappers<M>,
    after: Seq<S>,
    lists: Seq<Seq<Message<M::Component, E>>>,
) -> bool {
    &&& lists.len() == before.len()
    &&& after.len() == before.len()
    &&& forall|k: int|
        0 <= k < before.len() ==> S::may_send(
            before[k],
            em,
            mappers,
            after[k],
            #[trigger] lists[k],
        )
}

// the lists that the systems sent.
proof fn lemma_sent_by<M: ComponentMapper, E, S: System<M, E>>(
    before: Seq<S>,
    em: EntityManager,
    mappers: ComponentMappers<M>,
    after: Seq<S>,
    sent: Seq<Message<M::Component, E>>,
    ends: Seq<int>,
) -> (lists: Seq<Seq<Message<M::Component, E>>>)
    requires
        all_ran::<M, E, S>(before, em, mappers, after, sent, ends),
    ensures
        sent_by::<M, E, S>(before, em, mappers, after, lists),
        sent == lists.flatten(),
{
    let n = before.len() as int;
    let lists = Seq::new(n as nat, |k: int| sent.subrange(ends[k], ends[k + 1]));
    lemma_lists::<M, E, S>(before, em, mappers, after, sent, ends, n);
    assert(sent.take(ends[n]) =~= sent);
    assert forall|k: int| 0 <= k < n implies S::may_send(
        before[k],
        em,
        mappers,
        after[k],
        #[trigger] lists[k],
    ) by {
        assert(ran::<M, E, S>(before[k], em, mappers, after[k], sent, ends[k], ends[k + 1]));
    }
    lists
}

/// Running the systems lets each of them process the world as it is, once and in order, and
/// collects what they send. It changes neither the entities nor the data.
pub proof fn law_each_system_runs_once<M: ComponentMapper, E, S: System<M, E>>(
    sent: VecDeque<Message<M::Component, E>>,
)
    ensures
        forall|world: &mut World<M, S>| #[trigger]
            call_ensures(World::<M, S>::run_systems::<E>, (world,), sent) ==> {
                &&& final(world).spec_em() == world.spec_em()
                &&& final(world).spec_mappers() == world.spec_mappers()
                &&& exists|lists: Seq<Seq<Message<M::Component, E>>>|
                    {
                        &&& #[trigger] sent_by::<M, E, S>(
                            world.spec_systems(),
                            world.spec_em(),
                            world.spec_mappers(),
                            final(world).spec_systems(),
                            lists,
                        )
                        &&& sent@ == lists.flatten()
                    }
            },
{
    assert forall|world: &mut World<M, S>| #[trigger]
        call_ensures(World::<M, S>::run_systems::<E>, (world,), sent) implies exists|
        lists: Seq<Seq<Message<M::Component, E>>>,
    |
        {
            &&& #[trigger] sent_by::<M, E, S>(
                world.spec_systems(),
                world.spec_em(),
                world.spec_mappers(),
                final(world).spec_systems(),
                lists,
            )
            &&& sent@ == lists.flatten()
        } by {
        let ends = choose|ends: Seq<int>| #[trigger]
            all_ran::<M, E, S>(
                world.spec_systems(),
                world.spec_em(),
                world.spec_mappers(),
                final(world).spec_systems(),
                sent@,
                ends,
            );
        let lists = lemma_sent_by::<M, E, S>(
            world.spec_systems(),
            world.spec_em(),
            world.spec_mappers(),
            final(world).spec_systems(),
            sent@,
            ends,
        );
    }
}

/// Processing the systems lets each of them process the world once, and then all that they
/// sent takes effect, unless they ask for more entities than there is room for: then neither
/// the entities nor the data change.
pub proof fn law_what_systems_send_takes_effect<
    M: ComponentMapper,
    S: System<M, E>,
    E: ComponentEdit<Item = M::Component>,
>(r: bool) where M::Component: Clone
    ensures
        forall|world: &mut World<M, S>| #[trigger]
            call_ensures(World::<M, S>::process_systems::<E>, (world,), r) && world.spec_em().wf()
                ==> exists|
                lists: Seq<Seq<Message<M::Component, E>>>,
            |
                {
                    &&& #[trigger] sent_by::<M, E, S>(
                        world.spec_systems(),
                        world.spec_em(),
                        world.spec_mappers(),
                        final(world).spec_systems(),
                        lists,
                    )
                    &&& r == (count_asked(lists.flatten()) <= world.spec_em().spec_room())
                    &&& r ==> took_effect(
                        world.spec_em(),
                        world.spec_mappers()@,
                        lists.flatten(),
                        final(world).spec_em(),
                        final(world).spec_mappers()@,
                    )
                    &&& !r ==> final(world).spec_em() == world.spec_em() && final(
                        world).spec_mappers() == world.spec_mappers()
                },
{
    assert forall|world: &mut World<M, S>| #[trigger]
        call_ensures(World::<M, S>::process_systems::<E>, (world,), r)
            && world.spec_em().wf() implies exists|
        lists: Seq<Seq<Message<M::Component, E>>>,
    |
        {
            &&& #[trigger] sent_by::<M, E, S>(
                world.spec_systems(),
                world.spec_em(),
                world.spec_mappers(),
                final(world).spec_systems(),
                lists,
            )
            &&& r == (count_asked(lists.flatten()) <= world.spec_em().spec_room())
            &&& r ==> took_effect(
                world.spec_em(),
                world.spec_mappers()@,
                lists.flatten(),
                final(world).spec_em(),
                final(world).spec_mappers()@,
            )
            &&& !r ==> final(world).spec_em() == world.spec_em() && final(world).spec_mappers()
                == world.spec_mappers()
        } by {
        let (msgs, ends) = choose|msgs: Seq<Message<M::Component, E>>, ends: Seq<int>|
            {
                &&& #[trigger] all_ran::<M, E, S>(
                    world.spec_systems(),
                    world.spec_em(),
                    world.spec_mappers(),
                    final(world).spec_systems(),
                    msgs,
                    ends,
                )
                &&& r == (asked_for(msgs) <= world.spec_em().spec_room())
                &&& if r {
                    exists|states: Seq<Snapshot<M::Component>>|
                        {
                            &&& #[trigger] all_processed(states, msgs)
                            &&& states[0] == world.snapshot()
                            &&& final(world).snapshot() == after_edits::<E>(states.last(), msgs)
                        }
                } else {
                    &&& final(world).spec_em() == world.spec_em()
                    &&& final(world).spec_mappers() == world.spec_mappers()
                }
            };
        let lists = lemma_sent_by::<M, E, S>(
            world.spec_systems(),
            world.spec_em(),
            world.spec_mappers(),
            final(world).spec_systems(),
            msgs,
            ends,
        );
        lemma_count(msgs);
        if r {
            let states = choose|states: Seq<Snapshot<M::Component>>|
                {
                    &&& #[trigger] all_processed(states, msgs)
                    &&& states[0] == world.snapshot()
                    &&& final(world).snapshot() == after_edits::<E>(states.last(), msgs)
                };
            lemma_took_effect(*world, msgs, *final(world), states);
        }
    }
}

/// There are enough slots for the entities that messages ask for, all together, if there is
/// room for as many.
pub proof fn law_slots_are_counted_for_all_messages<M: ComponentMapper, S, E>(
    world: &World<M, S>,
    messages: &VecDeque<Message<M::Component, E>>,
    r: bool,
)
    requires
        call_ensures(World::<M, S>::enough_slots::<E>, (world, messages), r),
    ensures
        r == (count_asked(messages@) <= world.spec_em().spec_room()),
{
    lemma_count(messages@);
}

} // verus!
