//! Changes of a world that are deferred until all systems have been processed.

use std::collections::{HashMap, VecDeque};
use vstd::prelude::*;
use crate::ecs::entity::{Entity, EntityManager};
use crate::ecs::entity;
use crate::ecs::mapper::{ComponentMapper, ComponentMappers, keyed_entities, select};
use crate::ecs::mapper;
use crate::ecs::offset_table::ComponentId;

verus! {

/// An edit of component data.
pub trait ComponentEdit: Sized {
    /// The component data.
    type Item;

    /// Whether the order of the edits does not matter.
    spec fn commutes(&self) -> bool;

    /// This edit and another one as one edit.
    spec fn combined(self, other: Self) -> Self;

    /// The data after the edit.
    spec fn applied(&self, item: Self::Item) -> Self::Item;

    /// Whether the order of the edits does not matter.
    fn is_commutative(&self) -> (r: bool)
        ensures
            r == self.commutes(),
    ;

    /// This edit and another one as one edit.
    fn combine_with(self, other: Self) -> (r: Self)
        ensures
            r == self.combined(other),
    ;

    /// Edits the data.
    fn apply(&self, item: &mut Self::Item)
        ensures
            *final(item) == self.applied(*old(item)),
    ;
}

/// Data for new entities.
pub trait Prototype {
    /// The component data.
    type Item;

    /// The data by its components.
    spec fn spec_components(&self) -> Seq<(ComponentId, Self::Item)>;

    /// The data by its components.
    fn components(&self) -> (r: Vec<(ComponentId, Self::Item)>)
        ensures
            r@ == self.spec_components(),
    ;
}

/// Messages pertaining to deferred processing.
pub enum Message<C, E> {
    /// Create n entities with this data.
    Next(usize, Vec<(ComponentId, C)>),
    /// Edits of a component to be applied to entities.
    Edit(ComponentId, Vec<(Entity, E)>),
    /// Destroy an entity.
    Destroy(Entity),
    /// Prunes dead entities from the mapper of a component.
    Prune(ComponentId),
}

/// Used to initialize entities created in a deferred manner with components.
pub struct EntityCreationGuard<C> {
    components: Vec<(ComponentId, C)>,
    n: usize,
}

impl<C> EntityCreationGuard<C> {
    /// The data of the entities by its components.
    pub closed spec fn spec_components(&self) -> Seq<(ComponentId, C)> {
        self.components@
    }

    /// The number of entities.
    pub closed spec fn spec_n(&self) -> usize {
        self.n
    }

    /// `n` entities of which nothing was said yet.
    pub fn new(n: usize) -> (r: Self)
        ensures
            r.spec_components() == Seq::<(ComponentId, C)>::empty(),
            r.spec_n() == n,
    {
        EntityCreationGuard { components: Vec::new(), n }
    }

    /// When the entity is created, attach this component data to it.
    pub fn with_component(self, id: ComponentId, c: C) -> (r: Self)
        ensures
            r.spec_components() == self.spec_components().push((id, c)),
            r.spec_n() == self.spec_n(),
    {
        let mut components = self.components;
        components.push((id, c));
        EntityCreationGuard { components, n: self.n }
    }

    /// When the entity is created, initialize it with this prototype.
    pub fn prototype<P: Prototype<Item = C>>(self, p: &P) -> (r: Self)
        ensures
            r.spec_components() == self.spec_components() + p.spec_components(),
            r.spec_n() == self.spec_n(),
    {
        let mut components = self.components;
        let mut more = p.components();
        components.append(&mut more);
        EntityCreationGuard { components, n: self.n }
    }

    /// The message that the entities are to be created, with the data that was attached.
    pub fn finish<E>(self) -> (r: Message<C, E>)
        ensures
            r is Next,
            r->Next_0 == self.spec_n(),
            r->Next_1@ == self.spec_components(),
    {
        Message::Next(self.n, self.components)
    }
}

/// For storing component edits.
pub struct ComponentEdits<E> {
    /// The edit that is not commutative.
    pub nc: Option<E>,
    /// The commutative edits, combined.
    pub c: Option<E>,
}

impl<E: ComponentEdit> ComponentEdits<E> {
    /// No edits.
    pub open spec fn none() -> Self {
        ComponentEdits { nc: None, c: None }
    }

    /// These edits and one more: commutative edits are combined, and of the others the
    /// last one counts.
    pub open spec fn and(self, edit: E) -> Self {
        if edit.commutes() {
            ComponentEdits {
                nc: self.nc,
                c: Some(
                    match self.c {
                        Some(e) => e.combined(edit),
                        None => edit,
                    },
                ),
            }
        } else {
            ComponentEdits { nc: Some(edit), c: self.c }
        }
    }

    /// The data after the edits.
    pub open spec fn applied(&self, item: E::Item) -> E::Item {
        let first = match self.nc {
            Some(e) => e.applied(item),
            None => item,
        };
        match self.c {
            Some(e) => e.applied(first),
            None => first,
        }
    }

    /// No edits.
    pub fn new() -> (r: Self)
        ensures
            r == Self::none(),
    {
        ComponentEdits { nc: None, c: None }
    }

    /// One more edit.
    pub fn push(self, edit: E) -> (r: Self)
        ensures
            r == self.and(edit),
    {
        if edit.is_commutative() {
            let c = match self.c {
                Some(e) => Some(e.combine_with(edit)),
                None => Some(edit),
            };
            ComponentEdits { nc: self.nc, c }
        } else {
            ComponentEdits { nc: Some(edit), c: self.c }
        }
    }

    /// Edits the data.
    pub fn apply(&self, item: &mut E::Item)
        ensures
            *final(item) == self.applied(*old(item)),
    {
        match &self.nc {
            Some(e) => e.apply(item),
            None => {},
        }
        match &self.c {
            Some(e) => e.apply(item),
            None => {},
        }
    }

    /// What two edits do: of edits that are not commutative the last one counts,
    /// commutative edits are combined, and an edit that is not commutative comes before
    /// one that is.
    pub proof fn law_two_edits(a: E, b: E, item: E::Item)
        ensures
            Self::none().and(a).applied(item) == a.applied(item),
            Self::none().and(a).and(b).applied(item) == if a.commutes() && b.commutes() {
                a.combined(b).applied(item)
            } else if b.commutes() {
                b.applied(a.applied(item))
            } else if a.commutes() {
                a.applied(b.applied(item))
            } else {
                b.applied(item)
            },
    {
    }
}

/// The edits of each entity once the edits of a list have been added.
pub open spec fn edits_and<E: ComponentEdit>(
    edits: Map<Entity, ComponentEdits<E>>,
    list: Seq<(Entity, E)>,
) -> Map<Entity, ComponentEdits<E>>
    decreases list.len(),
{
    if list.len() == 0 {
        edits
    } else {
        let before = edits_and(edits, list.drop_last());
        let (e, edit) = list.last();
        let mine = if before.contains_key(e) {
            before[e]
        } else {
            ComponentEdits::none()
        };
        before.insert(e, mine.and(edit))
    }
}

/// The data of each entity once the edits of the living have been applied.
pub open spec fn edited<E: ComponentEdit>(
    edits: Map<Entity, ComponentEdits<E>>,
    living: Set<Entity>,
    data: Map<Entity, E::Item>,
) -> Map<Entity, E::Item> {
    Map::new(
        |e: Entity| data.contains_key(e),
        |e: Entity|
            if edits.contains_key(e) && living.contains(e) {
                edits[e].applied(data[e])
            } else {
                data[e]
            },
    )
}

/// Utility struct for holding component edits
pub struct TypedEditHolder<E> {
    map: HashMap<u32, ComponentEdits<E>>,
}

impl<E: ComponentEdit> TypedEditHolder<E> {
    /// The edits by their entities.
    pub closed spec fn view(&self) -> Map<Entity, ComponentEdits<E>> {
        Map::new(
            |e: Entity| self.map@.contains_key(e.spec_id()),
            |e: Entity| self.map@[e.spec_id()],
        )
    }

    /// No edits.
    pub fn new() -> (r: Self)
        ensures
            r@ == Map::<Entity, ComponentEdits<E>>::empty(),
    {
        broadcast use vstd::std_specs::hash::group_hash_axioms;

        let r = TypedEditHolder { map: HashMap::new() };
        assert(r@ =~= Map::<Entity, ComponentEdits<E>>::empty());
        r
    }

    // one more edit.
    fn push_one(&mut self, e: Entity, edit: E)
        ensures
            final(self)@ == edits_and(old(self)@, seq![(e, edit)]),
    {
        broadcast use vstd::std_specs::hash::group_hash_axioms;

        let id: u32 = e.id();
        let edits = match self.map.remove(&id) {
            Some(edits) => edits,
            None => ComponentEdits::new(),
        };
        self.map.insert(id, edits.push(edit));
        proof {
            let list = seq![(e, edit)];
            assert(list.drop_last() =~= Seq::<(Entity, E)>::empty());
            assert(edits_and(old(self)@, list.drop_last()) == old(self)@);
            assert forall|x: Entity| x.spec_id() == id implies x == e by {
                entity::lemma_entity_ext(x, e);
            }
            assert(self@ =~= edits_and(old(self)@, list));
        }
    }

    /// More edits.
    pub fn push(&mut self, edits: Vec<(Entity, E)>)
        ensures
            final(self)@ == edits_and(old(self)@, edits@),
    {
        let ghost all = edits@;
        let mut rest = edits;
        let mut back: Vec<(Entity, E)> = Vec::new();
        // the last edit comes out first.
        while rest.len() > 0
            invariant
                rest@.len() + back@.len() == all.len(),
                rest@ == all.take(rest@.len() as int),
                forall|k: int|
                    0 <= k < back@.len() ==> #[trigger] back@[k] == all[all.len() - 1 - k],
            decreases rest@.len(),
        {
            let ghost n = rest@.len() as int;
            let last = rest.pop().unwrap();
            assert(all.take(n)[n - 1] == all[n - 1]);
            assert(all.take(n).drop_last() =~= all.take(n - 1));
            back.push(last);
        }
        assert(all.take(0) =~= Seq::<(Entity, E)>::empty());
        while back.len() > 0
            invariant
                back@.len() <= all.len(),
                forall|k: int|
                    0 <= k < back@.len() ==> #[trigger] back@[k] == all[all.len() - 1 - k],
                self@ == edits_and(old(self)@, all.take(all.len() - back@.len())),
            decreases back@.len(),
        {
            let ghost n = all.len() - back@.len();
            let ghost before = self@;
            let (e, edit) = back.pop().unwrap();
            assert(all[n] == (e, edit));
            self.push_one(e, edit);
            proof {
                let more = all.take(n + 1);
                assert(more.drop_last() =~= all.take(n));
                assert(more.last() == (e, edit));
                let one = seq![(e, edit)];
                assert(one.drop_last() =~= Seq::<(Entity, E)>::empty());
                assert(edits_and(before, one.drop_last()) == before);
                assert(self@ =~= edits_and(old(self)@, more));
            }
        }
        assert(all.take(all.len() as int) =~= all);
    }

    /// Applies the edits to the data of the living.
    pub fn apply<M: ComponentMapper<Component = E::Item>>(&self, mapper: &mut M, em: &EntityManager)
        requires
            old(mapper).wf(),
        ensures
            final(mapper).wf(),
            final(mapper).data() == edited(self@, em.living().dom(), old(mapper).data()),
    {
        broadcast use vstd::std_specs::hash::group_hash_axioms;

        let entities = keyed_entities(&self.map);
        let ghost before = mapper.data();
        let ghost living = em.living().dom();
        let mut n: usize = 0;
        assert(entities@.take(0) =~= Seq::<Entity>::empty());
        assert(mapper.data() =~= before);
        while n < entities.len()
            invariant
                n <= entities@.len(),
                mapper.wf(),
                entities@.no_duplicates(),
                living == em.living().dom(),
                forall|e: Entity| #[trigger] entities@.contains(e) <==> self@.contains_key(e),
                mapper.data().dom() == before.dom(),
                forall|e: Entity| #[trigger]
                    before.contains_key(e) ==> mapper.data()[e] == if entities@.take(
                        n as int,
                    ).contains(e) && living.contains(e) {
                        self@[e].applied(before[e])
                    } else {
                        before[e]
                    },
            decreases entities@.len() - n,
        {
            broadcast use vstd::std_specs::hash::group_hash_axioms;

            let e = entities[n];
            let ghost mid = mapper.data();
            proof {
                assert(entities@.contains(e));
                assert(self.map@.contains_key(e.spec_id()));
                mapper::lemma_take_more(entities@, n as int);
                assert(!entities@.take(n as int).contains(e)) by {
                    if entities@.take(n as int).contains(e) {
                        let i = choose|i: int| 0 <= i < n && entities@.take(n as int)[i] == e;
                        assert(entities@[i] == entities@[n as int]);
                    }
                }
            }
            if em.is_alive(e) {
                if let Some(edits) = self.map.get(&e.id()) {
                    if let Some(item) = mapper.get_mut(e) {
                        edits.apply(item);
                    }
                }
            }
            proof {
                assert(mapper.data().dom() =~= before.dom());
                assert forall|x: Entity| #[trigger]
                    before.contains_key(x) implies mapper.data()[x] == if entities@.take(
                    n + 1,
                ).contains(x) && living.contains(x) {
                    self@[x].applied(before[x])
                } else {
                    before[x]
                } by {
                    assert(mid.contains_key(x));
                }
            }
            n = n + 1;
        }
        proof {
            assert(entities@.take(n as int) =~= entities@);
            assert(mapper.data() =~= edited(self@, living, before));
        }
    }
}

/// All components that the message speaks of are managed.
pub open spec fn message_ok<C, E>(msg: Message<C, E>, managed: Set<ComponentId>) -> bool {
    match msg {
        Message::Next(_, components) => components_ok(components@, managed),
        Message::Edit(id, _) => managed.contains(id),
        Message::Destroy(_) => true,
        Message::Prune(id) => managed.contains(id),
    }
}

/// All of the components are managed.
pub open spec fn components_ok<C>(
    components: Seq<(ComponentId, C)>,
    managed: Set<ComponentId>,
) -> bool {
    forall|k: int| 0 <= k < components.len() ==> managed.contains((#[trigger] components[k]).0)
}

/// All components that the messages speak of are managed.
pub open spec fn messages_ok<C, E>(msgs: Seq<Message<C, E>>, managed: Set<ComponentId>) -> bool {
    forall|k: int| 0 <= k < msgs.len() ==> message_ok(#[trigger] msgs[k], managed)
}

/// A handle to the world state that is passed to systems which are processing.
/// Wraps the entity manager and component mappers.
pub struct WorldHandle<'a, M: ComponentMapper, E> {
    em: &'a EntityManager,
    component_mappers: &'a ComponentMappers<M>,
    messages: VecDeque<Message<M::Component, E>>,
}

/// Creates a handle without messages.
pub fn world_handle<'a, M: ComponentMapper, E>(
    em: &'a EntityManager,
    cm: &'a ComponentMappers<M>,
) -> (r: WorldHandle<'a, M, E>)
    requires
        em.wf(),
        cm.wf(),
    ensures
        r.wf(),
        r.spec_em() == em,
        r.spec_mappers() == cm,
        r.messages() == Seq::<Message<M::Component, E>>::empty(),
{
    WorldHandle { em, component_mappers: cm, messages: VecDeque::new() }
}

impl<'a, M: ComponentMapper, E> WorldHandle<'a, M, E> {
    /// The entity manager.
    pub closed spec fn spec_em(&self) -> &EntityManager {
        self.em
    }

    /// The component mappers.
    pub closed spec fn spec_mappers(&self) -> &ComponentMappers<M> {
        self.component_mappers
    }

    /// The messages that were sent, in order.
    pub closed spec fn messages(&self) -> Seq<Message<M::Component, E>> {
        self.messages@
    }

    /// All components that the messages speak of are managed.
    pub open spec fn wf(&self) -> bool {
        &&& self.spec_em().wf()
        &&& self.spec_mappers().wf()
        &&& messages_ok(self.messages(), self.spec_mappers()@.dom())
    }

    /// The same world, with more messages.
    pub open spec fn sent(&self, before: &Self, more: Seq<Message<M::Component, E>>) -> bool {
        &&& self.spec_em() == before.spec_em()
        &&& self.spec_mappers() == before.spec_mappers()
        &&& self.messages() == before.messages() + more
    }

    // sends a message.
    fn send(&mut self, msg: Message<M::Component, E>)
        requires
            old(self).wf(),
            message_ok(msg, old(self).spec_mappers()@.dom()),
        ensures
            final(self).wf(),
            final(self).sent(old(self), seq![msg]),
    {
        self.messages.push_back(msg);
        assert(self.messages() =~= old(self).messages() + seq![msg]);
    }

    /// Gives up the handle for the messages.
    pub fn into_messages(self) -> (r: VecDeque<Message<M::Component, E>>)
        ensures
            r@ == self.messages(),
    {
        self.messages
    }

    /// The component mappers.
    pub fn mappers(&self) -> (r: &'a ComponentMappers<M>)
        ensures
            r == self.spec_mappers(),
    {
        self.component_mappers
    }

    /// Whether an entity is currently "alive", or exists.
    pub fn is_alive(&self, e: Entity) -> (r: bool)
        ensures
            r == self.spec_em().living().contains_key(e),
    {
        self.em.is_alive(e)
    }

    /// Destroy an entity.
    pub fn destroy_entity(&mut self, e: Entity)
        requires
            old(self).wf(),
        ensures
            final(self).wf(),
            final(self).sent(old(self), seq![Message::Destroy(e)]),
    {
        self.send(Message::Destroy(e));
    }

    /// Create an entity in a deferred manner.
    pub fn next_entity(&self) -> (r: EntityCreationGuard<M::Component>)
        ensures
            r.spec_components() == Seq::<(ComponentId, M::Component)>::empty(),
            r.spec_n() == 1,
    {
        self.next_entities(1)
    }

    /// Create some entities in a deferred manner.
    pub fn next_entities(&self, n: usize) -> (r: EntityCreationGuard<M::Component>)
        ensures
            r.spec_components() == Seq::<(ComponentId, M::Component)>::empty(),
            r.spec_n() == n,
    {
        EntityCreationGuard::new(n)
    }

    /// Sends the message that entities are to be created, once it was said what they have.
    pub fn create(&mut self, guard: EntityCreationGuard<M::Component>)
        requires
            old(self).wf(),
            components_ok(guard.spec_components(), old(self).spec_mappers()@.dom()),
        ensures
            final(self).wf(),
            ({
                let msg = final(self).messages().last();
                &&& msg is Next
                &&& msg->Next_0 == guard.spec_n()
                &&& msg->Next_1@ == guard.spec_components()
                &&& final(self).messages().len() == old(self).messages().len() + 1
                &&& final(self).sent(old(self), seq![msg])
            }),
    {
        let msg = guard.finish();
        self.send(msg);
        assert(self.messages().last() == msg);
    }

    /// Sends an edit of a component of an entity.
    pub fn submit_change(&mut self, id: ComponentId, e: Entity, edit: E)
        requires
            old(self).wf(),
            old(self).spec_mappers()@.contains_key(id),
        ensures
            final(self).wf(),
            ({
                let msg = final(self).messages().last();
                &&& msg is Edit
                &&& msg->Edit_0 == id
                &&& msg->Edit_1@ == seq![(e, edit)]
                &&& final(self).sent(old(self), seq![msg])
            }),
    {
        let list: Vec<(Entity, E)> = vec![(e, edit)];
        assert(list@ =~= seq![(e, edit)]);
        let msg = Message::Edit(id, list);
        self.send(msg);
        assert(self.messages().last() == msg);
    }

    /// Sends the edits of a component that a function gives for each item of a list.
    pub fn submit_changes<S, D: Fn(S) -> (Entity, E)>(
        &mut self,
        id: ComponentId,
        f: D,
        items: Vec<S>,
    )
        requires
            old(self).wf(),
            old(self).spec_mappers()@.contains_key(id),
            forall|k: int| 0 <= k < items@.len() ==> call_requires(f, (#[trigger] items@[k],)),
        ensures
            final(self).wf(),
            ({
                let msg = final(self).messages().last();
                &&& msg is Edit
                &&& msg->Edit_0 == id
                &&& msg->Edit_1@.len() == items@.len()
                &&& forall|k: int|
                    0 <= k < items@.len() ==> call_ensures(
                        f,
                        (items@[k],),
                        #[trigger] msg->Edit_1@[k],
                    )
                &&& final(self).sent(old(self), seq![msg])
            }),
    {
        let ghost all = items@;
        let mut list: Vec<(Entity, E)> = Vec::new();
        let mut rest: VecDeque<S> = VecDeque::new();
        let mut items = items;
        // the last item comes out first.
        assert(all.take(all.len() as int) =~= all);
        assert(all.skip(all.len() as int) =~= Seq::<S>::empty());
        while items.len() > 0
            invariant
                items@.len() <= all.len(),
                items@ == all.take(items@.len() as int),
                rest@ == all.skip(items@.len() as int),
            decreases items@.len(),
        {
            let ghost n = items@.len() as int;
            let last = items.pop().unwrap();
            rest.push_front(last);
            proof {
                assert(all.take(n)[n - 1] == all[n - 1]);
                assert(all.take(n).drop_last() =~= all.take(n - 1));
                assert(rest@ =~= all.skip(n - 1));
            }
        }
        assert(all.skip(0) =~= all);
        loop
            invariant
                list@.len() <= all.len(),
                rest@ == all.skip(list@.len() as int),
                forall|k: int| 0 <= k < all.len() ==> call_requires(f, (#[trigger] all[k],)),
                forall|k: int|
                    0 <= k < list@.len() ==> call_ensures(f, (all[k],), #[trigger] list@[k]),
            ensures
                list@.len() == all.len(),
            decreases rest@.len(),
        {
            let ghost n = list@.len() as int;
            match rest.pop_front() {
                Some(item) => {
                    assert(all.skip(n)[0] == all[n]);
                    assert(all.skip(n).drop_first() =~= all.skip(n + 1));
                    list.push(f(item));
                },
                None => {
                    break;
                },
            }
        }
        let msg = Message::Edit(id, list);
        self.send(msg);
        assert(self.messages().last() == msg);
    }

    /// Creates a query
    pub fn query(&mut self) -> (r: EntityQuery<'_, 'a, M, E>)
        requires
            old(self).wf(),
        ensures
            r.wf(),
            r.spec_handle() == *old(self),
            r.wanted() == Seq::<Set<Entity>>::empty(),
            r.unwanted() == Seq::<Set<Entity>>::empty(),
            *final(self) == *final(r.handle),
    {
        let r = EntityQuery {
            handle: self,
            filters: Filters { candidates: Vec::new(), disallowed: Vec::new() },
        };
        assert(r.wanted() =~= Seq::<Set<Entity>>::empty());
        assert(r.unwanted() =~= Seq::<Set<Entity>>::empty());
        r
    }
}

/// A builder for entity queries.
pub struct EntityQuery<'q, 'a, M: ComponentMapper, E> {
    /// Where messages are sent to.
    pub handle: &'q mut WorldHandle<'a, M, E>,
    /// Which entities to return.
    pub filters: Filters,
}

/// What the entities of a query must have, and must not have.
pub struct Filters {
    candidates: Vec<Vec<Entity>>,
    disallowed: Vec<Vec<Entity>>,
}

/// Whether the ratio of dead to living entities is over the threshold: there is more than
/// one dead entity for four living ones.
pub open spec fn over_threshold(dead: int, alive: int) -> bool {
    4 * dead > alive
}

impl<'q, 'a, M: ComponentMapper, E> EntityQuery<'q, 'a, M, E> {
    /// The handle that the query was made from, with the messages sent so far.
    pub open spec fn spec_handle(&self) -> WorldHandle<'a, M, E> {
        *self.handle
    }

    /// The entity manager.
    pub open spec fn spec_em(&self) -> &EntityManager {
        self.spec_handle().spec_em()
    }

    /// The mappers that are queried.
    pub open spec fn spec_mappers(&self) -> &ComponentMappers<M> {
        self.spec_handle().spec_mappers()
    }

    /// The sets that the entities must be in.
    pub closed spec fn wanted(&self) -> Seq<Set<Entity>> {
        mapper::sets_of(self.filters.candidates@)
    }

    /// The sets that the entities must not be in.
    pub closed spec fn unwanted(&self) -> Seq<Set<Entity>> {
        mapper::sets_of(self.filters.disallowed@)
    }

    /// No candidate is listed twice.
    pub closed spec fn wf(&self) -> bool {
        &&& self.handle.wf()
        &&& forall|k: int|
            0 <= k < self.filters.candidates@.len() ==> (#[trigger] self.filters.candidates@[k])@.no_duplicates()
    }

    /// The living entities that have a component.
    pub open spec fn living_holders(&self, id: ComponentId) -> Set<Entity> {
        self.spec_mappers()@[id].data().dom().intersect(self.spec_em().living().dom())
    }

    /// Whether the mapper of a component has too many dead entities.
    pub open spec fn needs_prune(&self, id: ComponentId) -> bool {
        let all = self.spec_mappers()@[id].data().dom();
        let living = self.spec_em().living().dom();
        over_threshold(all.difference(living).len() as int, all.intersect(living).len() as int)
    }

    /// The messages that looking through the mapper of a component sends.
    pub open spec fn asks(&self, id: ComponentId) -> Seq<Message<M::Component, E>> {
        if self.needs_prune(id) {
            seq![Message::Prune(id)]
        } else {
            Seq::empty()
        }
    }

    /// Filters a list of different entities and returns it with the number of dead
    /// entities.
    pub fn filter_alive(&self, entities: Vec<Entity>) -> (r: (Vec<Entity>, usize))
        requires
            entities@.no_duplicates(),
        ensures
            r.0@.no_duplicates(),
            r.0@.to_set() == entities@.to_set().intersect(self.spec_em().living().dom()),
            r.1 == entities@.to_set().difference(self.spec_em().living().dom()).len(),
            r.1 + r.0@.len() == entities@.len(),
    {
        let ghost living = self.handle.em.living().dom();
        let mut alive: Vec<Entity> = Vec::new();
        let mut n: usize = 0;
        assert(entities@.take(0) =~= Seq::<Entity>::empty());
        while n < entities.len()
            invariant
                n <= entities@.len(),
                living == self.handle.em.living().dom(),
                entities@.no_duplicates(),
                alive@.no_duplicates(),
                alive@.len() <= n,
                forall|e: Entity| #[trigger]
                    alive@.contains(e) <==> entities@.take(n as int).contains(e)
                        && living.contains(e),
            decreases entities@.len() - n,
        {
            let e = entities[n];
            let ghost before = alive@;
            let keep = self.handle.em.is_alive(e);
            proof {
                mapper::lemma_take_more(entities@, n as int);
                assert(!entities@.take(n as int).contains(e)) by {
                    if entities@.take(n as int).contains(e) {
                        let i = choose|i: int| 0 <= i < n && entities@.take(n as int)[i] == e;
                        assert(entities@[i] == entities@[n as int]);
                    }
                }
                assert(!before.contains(e));
            }
            if keep {
                alive.push(e);
            }
            proof {
                assert forall|x: Entity| #[trigger]
                    alive@.contains(x) <==> entities@.take(n + 1).contains(x) && living.contains(
                        x,
                    ) by {
                    if keep {
                        mapper::lemma_push_contains(before, e, x);
                    }
                }
            }
            n = n + 1;
        }
        let dead: usize = entities.len() - alive.len();
        proof {
            assert(entities@.take(n as int) =~= entities@);
            let all = entities@.to_set();
            assert forall|e: Entity| #[trigger] alive@.to_set().contains(e) == all.intersect(
                living,
            ).contains(e) by {
                assert(alive@.contains(e) == alive@.to_set().contains(e));
                assert(entities@.contains(e) == all.contains(e));
            }
            assert(alive@.to_set() =~= all.intersect(living));
            entities@.unique_seq_to_set();
            alive@.unique_seq_to_set();
            let kept = alive@.to_set();
            vstd::set_lib::lemma_set_difference_len(all, kept);
            assert(all.difference(living) =~= all.difference(kept));
            assert(kept.difference(all) =~= Set::<Entity>::empty());
            assert(all.intersect(kept) =~= kept);
            assert(all.union(kept) =~= all);
        }
        (alive, dead)
    }

    // the living entities that have a component. Asks for the pruning of its mapper if that
    // has too many dead ones.
    fn holders_alive(&mut self, id: ComponentId) -> (r: Vec<Entity>)
        requires
            old(self).wf(),
            old(self).spec_mappers()@.contains_key(id),
        ensures
            final(self).wf(),
            r@.no_duplicates(),
            r@.to_set() == old(self).living_holders(id),
            final(self).spec_handle().sent(&old(self).spec_handle(), old(self).asks(id)),
            *final(final(self).handle) == *final(old(self).handle),
            final(self).filters == old(self).filters,
    {
        let entities = self.handle.component_mappers.get_mapper(id).entities();
        proof {
            entities@.unique_seq_to_set();
        }
        let (alive, dead) = self.filter_alive(entities);
        proof {
            alive@.unique_seq_to_set();
        }
        // more than one for four.
        if dead > alive.len() / 4 {
            self.handle.send(Message::Prune(id));
        } else {
            assert(self.spec_handle().messages() =~= old(self).spec_handle().messages()
                + Seq::empty());
        }
        alive
    }

    /// Causes this query to only return living entities with the given component. If too many
    /// of those that have it are dead, asks for the pruning of its mapper.
    pub fn with_component(self, id: ComponentId) -> (r: Self)
        requires
            self.wf(),
            self.spec_mappers()@.contains_key(id),
        ensures
            r.wf(),
            r.wanted() == self.wanted().push(self.living_holders(id)),
            r.unwanted() == self.unwanted(),
            r.spec_handle().sent(&self.spec_handle(), self.asks(id)),
            *final(r.handle) == *final(self.handle),
    {
        let mut r = self;
        let entities = r.holders_alive(id);
        r.filters.candidates.push(entities);
        assert(r.wanted() =~= self.wanted().push(self.living_holders(id)));
        r
    }

    /// Causes this query to only return entities without the given component. If too many of
    /// those that have it are dead, asks for the pruning of its mapper.
    pub fn without_component(self, id: ComponentId) -> (r: Self)
        requires
            self.wf(),
            self.spec_mappers()@.contains_key(id),
        ensures
            r.wf(),
            r.wanted() == self.wanted(),
            r.unwanted() == self.unwanted().push(self.living_holders(id)),
            r.spec_handle().sent(&self.spec_handle(), self.asks(id)),
            *final(r.handle) == *final(self.handle),
    {
        let mut r = self;
        let entities = r.holders_alive(id);
        r.filters.disallowed.push(entities);
        assert(r.unwanted() =~= self.unwanted().push(self.living_holders(id)));
        r
    }

    /// Executes the query.
    pub fn execute(self) -> (r: Vec<Entity>)
        requires
            self.wf(),
        ensures
            r@.no_duplicates(),
            forall|e: Entity| #[trigger]
                r@.contains(e) <==> mapper::selected(self.wanted(), self.unwanted(), e),
            *final(self.handle) == self.spec_handle(),
    {
        select(&self.filters.candidates, &self.filters.disallowed)
    }
}

/// The edits of a list that are for one entity, in order.
pub open spec fn edits_for<E>(list: Seq<(Entity, E)>, e: Entity) -> Seq<E> {
    list.filter(|p: (Entity, E)| p.0 == e).map_values(|p: (Entity, E)| p.1)
}

/// These edits and those of a list, one after the other.
pub open spec fn collected<E: ComponentEdit>(
    start: ComponentEdits<E>,
    list: Seq<E>,
) -> ComponentEdits<E> {
    list.fold_left(start, |all: ComponentEdits<E>, edit: E| all.and(edit))
}

// one more edit.
pub proof fn lemma_collected_push<E: ComponentEdit>(
    start: ComponentEdits<E>,
    list: Seq<E>,
    edit: E,
)
    ensures
        collected(start, list.push(edit)) == collected(start, list).and(edit),
{
    assert(list.push(edit).drop_last() =~= list);
}

// the edits of two lists.
pub proof fn lemma_collected_add<E: ComponentEdit>(start: ComponentEdits<E>, a: Seq<E>, b: Seq<E>)
    ensures
        collected(start, a + b) == collected(collected(start, a), b),
    decreases b.len(),
{
    if b.len() == 0 {
        assert(a + b =~= a);
    } else {
        lemma_collected_add(start, a, b.drop_last());
        assert(a + b =~= (a + b.drop_last()).push(b.last()));
        assert(b =~= b.drop_last().push(b.last()));
        lemma_collected_push(start, a + b.drop_last(), b.last());
        lemma_collected_push(collected(start, a), b.drop_last(), b.last());
    }
}

// what one more edit means for one entity.
proof fn lemma_edits_for_push<E>(list: Seq<(Entity, E)>, x: Entity, edit: E, e: Entity)
    ensures
        edits_for(list.push((x, edit)), e) == if x == e {
            edits_for(list, e).push(edit)
        } else {
            edits_for(list, e)
        },
{
    reveal(Seq::filter);
    let p = |p: (Entity, E)| p.0 == e;
    let f = |p: (Entity, E)| p.1;
    let more = list.push((x, edit));
    assert(more.drop_last() =~= list);
    if x == e {
        assert(more.filter(p) == list.filter(p).push((x, edit)));
        assert(list.filter(p).push((x, edit)).map_values(f) =~= list.filter(p).map_values(f).push(
            edit,
        ));
    }
}

/// Adding a list of edits adds to those of each entity the edits that are for it, in order,
/// and leaves those of the others as they were.
pub proof fn law_edits_go_to_their_entities<E: ComponentEdit>(
    edits: Map<Entity, ComponentEdits<E>>,
    list: Seq<(Entity, E)>,
    e: Entity,
)
    ensures
        edits_and(edits, list).contains_key(e) <==> edits.contains_key(e) || exists|k: int|
            0 <= k < list.len() && (#[trigger] list[k]).0 == e,
        edits_for(list, e).len() == 0 <==> forall|k: int|
            0 <= k < list.len() ==> (#[trigger] list[k]).0 != e,
        edits_and(edits, list).contains_key(e) ==> edits_and(edits, list)[e] == collected(
            if edits.contains_key(e) {
                edits[e]
            } else {
                ComponentEdits { nc: None, c: None }
            },
            edits_for(list, e),
        ),
    decreases list.len(),
{
    if list.len() == 0 {
        reveal(Seq::filter);
        assert(edits_for(list, e) =~= Seq::<E>::empty());
    } else {
        let (x, edit) = list.last();
        let init = list.drop_last();
        law_edits_go_to_their_entities(edits, init, e);
        lemma_edits_for_push(init, x, edit, e);
        assert(init.push((x, edit)) =~= list);
        let start = if edits.contains_key(e) {
            edits[e]
        } else {
            ComponentEdits { nc: None, c: None }
        };
        lemma_collected_push(start, edits_for(init, e), edit);
        assert(list[list.len() - 1] == (x, edit));
        assert(forall|k: int| 0 <= k < init.len() ==> #[trigger] init[k] == list[k]);
        if exists|k: int| 0 <= k < init.len() && (#[trigger] init[k]).0 == e {
            let k = choose|k: int| 0 <= k < init.len() && (#[trigger] init[k]).0 == e;
            assert(list[k].0 == e);
        }
        if exists|k: int| 0 <= k < list.len() && (#[trigger] list[k]).0 == e {
            let k = choose|k: int| 0 <= k < list.len() && (#[trigger] list[k]).0 == e;
            if k < init.len() {
                assert(init[k].0 == e);
            }
        }
    }
}

// the commutative edits of a list, applied one after the other.
spec fn in_turn<E: ComponentEdit>(list: Seq<E>, item: E::Item) -> E::Item {
    list.filter(|a: E| a.commutes()).fold_left(item, |x: E::Item, a: E| a.applied(x))
}

// one more edit.
proof fn lemma_in_turn_push<E: ComponentEdit>(list: Seq<E>, edit: E, item: E::Item)
    ensures
        in_turn(list.push(edit), item) == if edit.commutes() {
            edit.applied(in_turn(list, item))
        } else {
            in_turn(list, item)
        },
{
    reveal(Seq::filter);
    let p = |a: E| a.commutes();
    assert(list.push(edit).drop_last() =~= list);
    if edit.commutes() {
        assert(list.filter(p).push(edit).drop_last() =~= list.filter(p));
    }
}

// what collected edits come to.
proof fn lemma_collected<E: ComponentEdit>(list: Seq<E>, last: int, item: E::Item)
    requires
        forall|a: E, b: E, x: E::Item|
            b.commutes() ==> #[trigger] a.combined(b).applied(x) == b.applied(a.applied(x)),
        -1 <= last < list.len(),
        0 <= last ==> !list[last].commutes(),
        forall|k: int| last < k < list.len() ==> (#[trigger] list[k]).commutes(),
    ensures
        ({
            let all = collected(ComponentEdits { nc: None, c: None }, list);
            &&& all.nc == if 0 <= last {
                Some(list[last])
            } else {
                None
            }
            &&& in_turn(list, item) == match all.c {
                Some(e) => e.applied(item),
                None => item,
            }
        }),
    decreases list.len(),
{
    let none = ComponentEdits::<E> { nc: None, c: None };
    if list.len() == 0 {
        reveal(Seq::filter);
    } else {
        let init = list.drop_last();
        let edit = list.last();
        let n = init.len() as int;
        assert(init.push(edit) =~= list);
        assert(list[n] == edit);
        lemma_collected_push(none, init, edit);
        lemma_in_turn_push(init, edit, item);
        let before = if edit.commutes() {
            last
        } else {
            last_plain(init)
        };
        if !edit.commutes() {
            assert(last == n);
            lemma_last_plain(init);
        } else {
            assert(forall|k: int| last < k < init.len() ==> #[trigger] init[k] == list[k]);
        }
        lemma_collected(init, before, item);
    }
}

// the last edit of a list that is not commutative.
spec fn last_plain<E: ComponentEdit>(list: Seq<E>) -> int
    decreases list.len(),
{
    if list.len() == 0 {
        -1
    } else if !list.last().commutes() {
        list.len() - 1
    } else {
        last_plain(list.drop_last())
    }
}

// it is the last one.
proof fn lemma_last_plain<E: ComponentEdit>(list: Seq<E>)
    ensures
        ({
            let last = last_plain(list);
            &&& -1 <= last < list.len()
            &&& 0 <= last ==> !list[last].commutes()
            &&& forall|k: int| last < k < list.len() ==> (#[trigger] list[k]).commutes()
        }),
    decreases list.len(),
{
    if list.len() > 0 && list.last().commutes() {
        let init = list.drop_last();
        lemma_last_plain(init);
        assert forall|k: int| last_plain(list) < k < list.len() implies (
        #[trigger] list[k]).commutes() by {
            if k < init.len() {
                assert(init[k].commutes());
            }
        }
    }
}

/// Where combined commutative edits do what the edits do one after the other, any edits that
/// are pushed and then applied do this: the last edit that is not commutative is made first,
/// and then all the commutative ones, one after the other. With `last` below zero there are
/// only commutative ones.
pub proof fn law_pushed_edits_are_made_in_turn<E: ComponentEdit>(
    pushed: Seq<ComponentEdits<E>>,
    list: Seq<E>,
    last: int,
)
    requires
        forall|a: E, b: E, x: E::Item|
            b.commutes() ==> #[trigger] a.combined(b).applied(x) == b.applied(a.applied(x)),
        pushed.len() == list.len() + 1,
        call_ensures(ComponentEdits::<E>::new, (), pushed[0]),
        forall|k: int|
            0 <= k < list.len() ==> call_ensures(
                ComponentEdits::<E>::push,
                (pushed[k], #[trigger] list[k]),
                pushed[k + 1],
            ),
        -1 <= last < list.len(),
        0 <= last ==> !list[last].commutes(),
        forall|k: int| last < k < list.len() ==> (#[trigger] list[k]).commutes(),
    ensures
        forall|item: &mut E::Item| #[trigger]
            call_ensures(ComponentEdits::<E>::apply, (&pushed[list.len() as int], item), ())
                ==> *final(item) == list.filter(|a: E| a.commutes()).fold_left(
                if 0 <= last {
                    list[last].applied(*item)
                } else {
                    *item
                },
                |x: E::Item, a: E| a.applied(x),
            ),
{
    lemma_pushed(pushed, list, list.len() as int);
    assert(list.take(list.len() as int) =~= list);
    assert forall|item: &mut E::Item| #[trigger]
        call_ensures(ComponentEdits::<E>::apply, (&pushed[list.len() as int], item), ()) implies *final(
    item) == list.filter(|a: E| a.commutes()).fold_left(
        if 0 <= last {
            list[last].applied(*item)
        } else {
            *item
        },
        |x: E::Item, a: E| a.applied(x),
    ) by {
        let start = if 0 <= last {
            list[last].applied(*item)
        } else {
            *item
        };
        lemma_collected(list, last, start);
        assert(in_turn(list, start) == list.filter(|a: E| a.commutes()).fold_left(
            start,
            |x: E::Item, a: E| a.applied(x),
        ));
    }
}

// pushing edits collects them.
proof fn lemma_pushed<E: ComponentEdit>(pushed: Seq<ComponentEdits<E>>, list: Seq<E>, n: int)
    requires
        pushed.len() == list.len() + 1,
        call_ensures(ComponentEdits::<E>::new, (), pushed[0]),
        forall|k: int|
            0 <= k < list.len() ==> call_ensures(
                ComponentEdits::<E>::push,
                (pushed[k], #[trigger] list[k]),
                pushed[k + 1],
            ),
        0 <= n <= list.len(),
    ensures
        pushed[n] == collected(ComponentEdits { nc: None, c: None }, list.take(n)),
    decreases n,
{
    let none = ComponentEdits::<E> { nc: None, c: None };
    if n == 0 {
        assert(list.take(0) =~= Seq::<E>::empty());
    } else {
        lemma_pushed(pushed, list, n - 1);
        assert(list.take(n) =~= list.take(n - 1).push(list[n - 1]));
        lemma_collected_push(none, list.take(n - 1), list[n - 1]);
    }
}

/// The query `r` is what a call makes of the query `q`.
pub open spec fn asked_of<'q, 'a, M: ComponentMapper, E>(
    q: EntityQuery<'q, 'a, M, E>,
    asked: mapper::Asked,
    r: EntityQuery<'q, 'a, M, E>,
) -> bool {
    match asked {
        mapper::Asked::With(id) => call_ensures(
            EntityQuery::<'q, 'a, M, E>::with_component,
            (q, id),
            r,
        ),
        mapper::Asked::Without(id) => call_ensures(
            EntityQuery::<'q, 'a, M, E>::without_component,
            (q, id),
            r,
        ),
    }
}

// what the calls so far ask of an entity.
proof fn lemma_query<'q, 'a, M: ComponentMapper, E>(
    em: &EntityManager,
    mappers: &ComponentMappers<M>,
    qs: Seq<EntityQuery<'q, 'a, M, E>>,
    asked: Seq<mapper::Asked>,
    n: int,
    e: Entity,
)
    requires
        qs.len() == asked.len() + 1,
        qs[0].spec_em() == em,
        qs[0].spec_mappers() == mappers,
        qs[0].wanted().len() == 0,
        qs[0].unwanted().len() == 0,
        forall|k: int| 0 <= k < asked.len() ==> asked_of(qs[k], #[trigger] asked[k], qs[k + 1]),
        0 <= n <= asked.len(),
    ensures
        qs[n].spec_em() == em,
        qs[n].spec_mappers() == mappers,
        0 < qs[n].wanted().len() <==> exists|k: int| 0 <= k < n && (#[trigger] asked[k]) is With,
        (forall|j: int| 0 <= j < qs[n].wanted().len() ==> (#[trigger] qs[n].wanted()[j]).contains(e))
            <==> (forall|k: int|
            0 <= k < n && (#[trigger] asked[k]) is With
                ==> mappers@[asked[k]->With_0].data().contains_key(e) && em.living().contains_key(e)),
        (forall|j: int|
            0 <= j < qs[n].unwanted().len() ==> !(#[trigger] qs[n].unwanted()[j]).contains(e)) <==> (
        forall|k: int|
            0 <= k < n && (#[trigger] asked[k]) is Without ==> !(
            mappers@[asked[k]->Without_0].data().contains_key(e) && em.living().contains_key(e))),
    decreases n,
{
    if n > 0 {
        lemma_query(em, mappers, qs, asked, n - 1, e);
        assert(asked_of(qs[n - 1], asked[n - 1], qs[n]));
        let before = qs[n - 1];
        let after = qs[n];
        match asked[n - 1] {
            mapper::Asked::With(id) => {
                let set = before.living_holders(id);
                assert(after.wanted() == before.wanted().push(set));
                assert(asked[n - 1] is With);
                if forall|j: int|
                    0 <= j < after.wanted().len() ==> (#[trigger] after.wanted()[j]).contains(e) {
                    assert(after.wanted()[before.wanted().len() as int].contains(e));
                    assert forall|j: int| 0 <= j < before.wanted().len() implies (
                    #[trigger] before.wanted()[j]).contains(e) by {
                        assert(after.wanted()[j].contains(e));
                    }
                }
            },
            mapper::Asked::Without(id) => {
                let set = before.living_holders(id);
                assert(after.unwanted() == before.unwanted().push(set));
                assert(asked[n - 1] is Without);
                if forall|j: int|
                    0 <= j < after.unwanted().len() ==> !(#[trigger] after.unwanted()[j]).contains(e) {
                    assert(!after.unwanted()[before.unwanted().len() as int].contains(e));
                    assert forall|j: int| 0 <= j < before.unwanted().len() implies !(
                    #[trigger] before.unwanted()[j]).contains(e) by {
                        assert(!after.unwanted()[j].contains(e));
                    }
                }
            },
        }
    }
}

/// A query that was built by any number of calls gives each living entity once that has all of
/// the components asked for and none of those that it must not have. It gives none if no
/// component was asked for.
pub proof fn law_queries_give_the_living_that_fit<'q, 'a, M: ComponentMapper, E>(
    qs: Seq<EntityQuery<'q, 'a, M, E>>,
    asked: Seq<mapper::Asked>,
    r: Vec<Entity>,
)
    requires
        qs.len() == asked.len() + 1,
        forall|k: int| 0 <= k < asked.len() ==> asked_of(qs[k], #[trigger] asked[k], qs[k + 1]),
        call_ensures(EntityQuery::<'q, 'a, M, E>::execute, (qs[asked.len() as int],), r),
    ensures
        forall|handle: &'q mut WorldHandle<'a, M, E>| #[trigger]
            call_ensures(WorldHandle::<'a, M, E>::query, (handle,), qs[0]) ==> {
                &&& r@.no_duplicates()
                &&& forall|e: Entity| #[trigger]
                    r@.contains(e) <==> {
                        &&& handle.spec_em().living().contains_key(e)
                        &&& exists|k: int| 0 <= k < asked.len() && (#[trigger] asked[k]) is With
                        &&& forall|k: int|
                            0 <= k < asked.len() && (#[trigger] asked[k]) is With
                                ==> handle.spec_mappers()@[asked[k]->With_0].data().contains_key(e)
                        &&& forall|k: int|
                            0 <= k < asked.len() && (#[trigger] asked[k]) is Without
                                ==> !handle.spec_mappers()@[asked[k]->Without_0].data().contains_key(
                                e,
                            )
                    }
            },
{
    assert forall|handle: &'q mut WorldHandle<'a, M, E>| #[trigger]
        call_ensures(WorldHandle::<'a, M, E>::query, (handle,), qs[0]) implies {
        &&& r@.no_duplicates()
        &&& forall|e: Entity| #[trigger]
            r@.contains(e) <==> {
                &&& handle.spec_em().living().contains_key(e)
                &&& exists|k: int| 0 <= k < asked.len() && (#[trigger] asked[k]) is With
                &&& forall|k: int|
                    0 <= k < asked.len() && (#[trigger] asked[k]) is With
                        ==> handle.spec_mappers()@[asked[k]->With_0].data().contains_key(e)
                &&& forall|k: int|
                    0 <= k < asked.len() && (#[trigger] asked[k]) is Without
                        ==> !handle.spec_mappers()@[asked[k]->Without_0].data().contains_key(e)
            }
    } by {
        assert forall|e: Entity| #[trigger] r@.contains(e) <==> {
            &&& handle.spec_em().living().contains_key(e)
            &&& exists|k: int| 0 <= k < asked.len() && (#[trigger] asked[k]) is With
            &&& forall|k: int|
                0 <= k < asked.len() && (#[trigger] asked[k]) is With
                    ==> handle.spec_mappers()@[asked[k]->With_0].data().contains_key(e)
            &&& forall|k: int|
                0 <= k < asked.len() && (#[trigger] asked[k]) is Without
                    ==> !handle.spec_mappers()@[asked[k]->Without_0].data().contains_key(e)
        } by {
            lemma_query(
                handle.spec_em(),
                handle.spec_mappers(),
                qs,
                asked,
                asked.len() as int,
                e,
            );
        }
    }
}

/// Looking through the mapper of a component asks once for its pruning if it holds data for
/// more than one dead entity for four living ones, and asks for nothing else.
pub proof fn law_queries_ask_for_pruning<'q, 'a, M: ComponentMapper, E>(
    q: EntityQuery<'q, 'a, M, E>,
    asked: mapper::Asked,
    r: EntityQuery<'q, 'a, M, E>,
    id: ComponentId,
)
    requires
        asked_of(q, asked, r),
        asked == mapper::Asked::With(id) || asked == mapper::Asked::Without(id),
    ensures
        ({
            let held = q.spec_handle().spec_mappers()@[id].data().dom();
            let living = q.spec_handle().spec_em().living().dom();
            let dead = held.difference(living).len();
            let before = q.spec_handle().messages();
            let after = r.spec_handle().messages();
            if 4 * dead > held.intersect(living).len() {
                after == before.push(Message::Prune(id))
            } else {
                after == before
            }
        }),
{
    let before = q.spec_handle().messages();
    assert(before + seq![Message::Prune(id)] =~= before.push(Message::<M::Component, E>::Prune(id)));
    assert(before + Seq::empty() =~= before);
}

/// Each call of a system sends one message, after all that were sent before, and nothing else of
/// the handle changes.
pub proof fn law_messages_are_sent_in_order<'a, M: ComponentMapper, E>(
    e: Entity,
    guard: EntityCreationGuard<M::Component>,
    id: ComponentId,
    edit: E,
)
    ensures
        forall|h: &mut WorldHandle<'a, M, E>| #[trigger]
            call_ensures(WorldHandle::<'a, M, E>::destroy_entity, (h, e), ()) ==> {
                &&& final(h).messages() == h.messages().push(Message::Destroy(e))
                &&& final(h).spec_em() == h.spec_em() && final(h).spec_mappers() == h.spec_mappers()
            },
        forall|h: &mut WorldHandle<'a, M, E>| #[trigger]
            call_ensures(WorldHandle::<'a, M, E>::create, (h, guard), ()) ==> {
                let msg = final(h).messages().last();
                &&& final(h).messages() == h.messages().push(msg)
                &&& msg matches Message::Next(n, components) && n == guard.spec_n()
                    && components@ == guard.spec_components()
                &&& final(h).spec_em() == h.spec_em() && final(h).spec_mappers() == h.spec_mappers()
            },
        forall|h: &mut WorldHandle<'a, M, E>| #[trigger]
            call_ensures(WorldHandle::<'a, M, E>::submit_change, (h, id, e, edit), ()) ==> {
                let msg = final(h).messages().last();
                &&& final(h).messages() == h.messages().push(msg)
                &&& msg matches Message::Edit(i, list) && i == id && list@ == seq![(e, edit)]
                &&& final(h).spec_em() == h.spec_em() && final(h).spec_mappers() == h.spec_mappers()
            },
{
    assert forall|h: &mut WorldHandle<'a, M, E>| #[trigger]
        call_ensures(WorldHandle::<'a, M, E>::destroy_entity, (h, e), ()) implies final(
        h).messages() == h.messages().push(Message::Destroy(e)) by {
        assert(h.messages() + seq![Message::Destroy(e)] =~= h.messages().push(Message::Destroy(e)));
    }
    assert forall|h: &mut WorldHandle<'a, M, E>| #[trigger]
        call_ensures(WorldHandle::<'a, M, E>::create, (h, guard), ()) implies final(h).messages()
        == h.messages().push(final(h).messages().last()) by {
        let msg = final(h).messages().last();
        assert(h.messages() + seq![msg] =~= h.messages().push(msg));
    }
    assert forall|h: &mut WorldHandle<'a, M, E>| #[trigger]
        call_ensures(WorldHandle::<'a, M, E>::submit_change, (h, id, e, edit), ()) implies final(
        h).messages() == h.messages().push(final(h).messages().last()) by {
        let msg = final(h).messages().last();
        assert(h.messages() + seq![msg] =~= h.messages().push(msg));
    }
}

/// Edits are submitted together: one message, with an edit for each item of the list, in order.
pub proof fn law_changes_are_sent_together<
    'a,
    M: ComponentMapper,
    E,
    S,
    D: Fn(S) -> (Entity, E),
>(id: ComponentId, f: D, items: Vec<S>)
    ensures
        forall|h: &mut WorldHandle<'a, M, E>| #[trigger]
            call_ensures(WorldHandle::<'a, M, E>::submit_changes::<S, D>, (h, id, f, items), ())
                ==> {
                let msg = final(h).messages().last();
                &&& final(h).messages() == h.messages().push(msg)
                &&& msg matches Message::Edit(i, list) && i == id && list@.len() == items@.len() && (
                forall|k: int|
                    0 <= k < items@.len() ==> call_ensures(f, (items@[k],), #[trigger] list@[k]))
                &&& final(h).spec_em() == h.spec_em() && final(h).spec_mappers() == h.spec_mappers()
            },
{
    assert forall|h: &mut WorldHandle<'a, M, E>| #[trigger]
        call_ensures(WorldHandle::<'a, M, E>::submit_changes::<S, D>, (h, id, f, items), ()) implies final(
        h).messages() == h.messages().push(final(h).messages().last()) by {
        let msg = final(h).messages().last();
        assert(h.messages() + seq![msg] =~= h.messages().push(msg));
    }
}

/// Adding edits to a holder adds to the edits of each entity those of the list that are for it, one
/// after the other. Applying them changes the data of those that live and have edits, and no other.
pub proof fn law_held_edits_are_applied_to_the_living<
    E: ComponentEdit,
    M: ComponentMapper<Component = E::Item>,
>(held: &TypedEditHolder<E>, edits: Vec<(Entity, E)>, em: &EntityManager, e: Entity)
    ensures
        forall|h: &mut TypedEditHolder<E>| #[trigger]
            call_ensures(TypedEditHolder::<E>::push, (h, edits), ()) ==> {
                let none = ComponentEdits { nc: None, c: None };
                &&& final(h)@.contains_key(e) <==> h@.contains_key(e) || exists|k: int|
                    0 <= k < edits@.len() && (#[trigger] edits@[k]).0 == e
                &&& final(h)@.contains_key(e) ==> final(h)@[e] == collected(
                    if h@.contains_key(e) {
                        h@[e]
                    } else {
                        none
                    },
                    edits_for(edits@, e),
                )
            },
        forall|m: &mut M| #[trigger]
            call_ensures(TypedEditHolder::<E>::apply::<M>, (held, m, em), ()) ==> {
                &&& final(m).data().contains_key(e) == m.data().contains_key(e)
                &&& m.data().contains_key(e) && em.living().contains_key(e) && held@.contains_key(
                    e,
                ) ==> final(m).data()[e] == held@[e].applied(m.data()[e])
                &&& m.data().contains_key(e) && !(em.living().contains_key(e)
                    && held@.contains_key(e)) ==> final(m).data()[e] == m.data()[e]
            },
{
    assert forall|h: &mut TypedEditHolder<E>| #[trigger]
        call_ensures(TypedEditHolder::<E>::push, (h, edits), ()) implies {
        let none = ComponentEdits { nc: None, c: None };
        &&& final(h)@.contains_key(e) <==> h@.contains_key(e) || exists|k: int|
            0 <= k < edits@.len() && (#[trigger] edits@[k]).0 == e
        &&& final(h)@.contains_key(e) ==> final(h)@[e] == collected(
            if h@.contains_key(e) {
                h@[e]
            } else {
                none
            },
            edits_for(edits@, e),
        )
    } by {
        law_edits_go_to_their_entities(h@, edits@, e);
    }
}

} // verus!
