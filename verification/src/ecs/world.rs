//! Worlds, which manage state for entities and components.

use core::marker::PhantomData;
use jobsteal::WorkPool;
use vstd::prelude::*;
use super::LARGE_SIZE;
use super::block::Granularity;
use super::component::{Component, Components, Empty, ListEntry, make_empty, PhantomComponents};
use super::component;
use super::entity::{Entity, MIN_UNUSED};
use super::entity;
use super::offset_table::ComponentId;
use super::slots::Slot;
use super::state::State;
use super::state;
use crate::memory::allocator::{Allocator, Block, DefaultAllocator};
use crate::memory::allocator;
use crate::memory::kind::{Capacity, Kind, Record};

verus! {

/// The world's allocator: for long term storage.
///
/// For now, this just forwards to the heap.
#[derive(Clone, Copy, Debug)]
pub struct WorldAllocator(pub DefaultAllocator);

impl Allocator for WorldAllocator {
    type Error = <DefaultAllocator as Allocator>::Error;

    open spec fn usable(&self, kind: Record) -> (int, int) {
        self.0.usable(kind)
    }

    open spec fn answers(
        heap: spec_fn(Record, bool) -> bool,
        before: Self,
        kind: Record,
        outcome: Result<(), Self::Error>,
        after: Self,
    ) -> bool {
        DefaultAllocator::answers(heap, before.0, kind, outcome, after.0)
    }

    open spec fn frees(
        before: Self,
        kind: Record,
        outcome: Result<(), Self::Error>,
        after: Self,
    ) -> bool {
        DefaultAllocator::frees(before.0, kind, outcome, after.0)
    }

    open spec fn reallocates(
        heap: spec_fn(Record, bool) -> bool,
        before: Self,
        kind: Record,
        new_kind: Record,
        outcome: Result<(), Self::Error>,
        after: Self,
    ) -> bool {
        DefaultAllocator::reallocates(heap, before.0, kind, new_kind, outcome, after.0)
    }

    proof fn lemma_reuse(
        heap: spec_fn(Record, bool) -> bool,
        before: Self,
        kind: Record,
        new_kind: Record,
    ) {
        DefaultAllocator::lemma_reuse(heap, before.0, kind, new_kind);
    }

    proof fn lemma_move(
        heap: spec_fn(Record, bool) -> bool,
        before: Self,
        kind: Record,
        new_kind: Record,
        between: Self,
        freed: Result<(), Self::Error>,
        after: Self,
    ) {
        DefaultAllocator::lemma_move(heap, before.0, kind, new_kind, between.0, freed, after.0);
    }

    proof fn lemma_refusal(
        heap: spec_fn(Record, bool) -> bool,
        before: Self,
        kind: Record,
        new_kind: Record,
        e: Self::Error,
        after: Self,
    ) {
        DefaultAllocator::lemma_refusal(heap, before.0, kind, new_kind, e, after.0);
    }

    fn allocate<T>(&mut self, kind: Kind) -> (r: Result<Block<T>, Self::Error>)
        ensures
            allocator::heap_for::<T>()(kind@, r is Ok),
    {
        self.0.allocate(kind)
    }

    fn dealloc<T>(&mut self, block: Block<T>, kind: Kind) -> (r: Result<(), Self::Error>)
        ensures
            r is Ok,
    {
        self.0.dealloc(block, kind)
    }

    fn realloc<T>(&mut self, block: &mut Block<T>, kind: Kind, new_kind: Kind) -> (r: Result<
        (),
        Self::Error,
    >) {
        self.0.realloc(block, kind, new_kind)
    }

    fn usable_size(&self, kind: Kind) -> (r: (Capacity, Capacity)) {
        self.0.usable_size(kind)
    }
}

/// A pool of worker threads.
#[verifier::external_type_specification]
#[verifier::external_body]
pub struct ExWorkPool(jobsteal::WorkPool);

/// An error of the operating system.
#[verifier::external_type_specification]
#[verifier::external_body]
pub struct ExIoError(std::io::Error);

/// The most threads that a pool is asked for.
pub const MAX_THREADS: usize = usize::MAX / 0x1_0000;

/// The number of logical CPUs, as `num_cpus::get` counts them. It depends on the
/// machine, and is at least one.
#[verifier::external_body]
fn logical_cpus() -> (r: usize)
    ensures
        1 <= r,
{
    num_cpus::get()
}

/// Starts a pool of `n` threads with `jobsteal::WorkPool::new`. Whether a thread starts
/// is for the operating system to say. A pool without threads has nothing to wait for,
/// and is always created.
///
/// The pool keeps a few words for each thread. The limit on the number of threads
/// makes sure that these can be counted.
#[verifier::external_body]
fn start_pool(n: usize) -> (r: Result<WorkPool, std::io::Error>)
    requires
        n <= MAX_THREADS,
    ensures
        n == 0 ==> r is Ok,
{
    WorkPool::new(n)
}

/// Whether `n` can be the number of logical CPUs: it is for `num_cpus::get` to say.
pub closed spec fn cpus_counted(n: usize) -> bool {
    call_ensures(logical_cpus, (), n)
}

/// Whether a pool of `n` threads can have been started, or else have failed to: it is for
/// `jobsteal::WorkPool::new` to say.
pub closed spec fn pool_answers(n: usize, started: bool) -> bool {
    exists|pool: Result<WorkPool, std::io::Error>| #[trigger]
        call_ensures(start_pool, (n,), pool) && started == (pool is Ok)
}

/// Whether the pool can be one that was started with `n` threads: it is for
/// `jobsteal::WorkPool::new` to say.
pub closed spec fn pool_started(n: usize, pool: WorkPool) -> bool {
    call_ensures(start_pool, (n,), Ok::<WorkPool, std::io::Error>(pool))
}

/// Why a world was not created.
#[derive(Clone, Copy, Debug, PartialEq, Eq, Structural)]
pub enum BuildError {
    /// A pool cannot have as many threads.
    TooManyThreads,
    /// The thread pool was not created.
    NoPool,
}

/// The world manages state for entities and components.
/// Typically, you will alter state via `Processors` which run
/// in groups you provide, but you can also do some specific state altering
/// through the world itself. Any kind of introspection on the world itself
/// requires exclusive access through a mutable reference.
pub struct World<C: Components> {
    state: State<C>,
    pool: WorkPool,
}

impl<C: Components> World<C> {
    /// The state of the world.
    pub closed spec fn spec_state(&self) -> State<C> {
        self.state
    }

    /// The pool of threads that the world runs on.
    pub closed spec fn spec_pool(&self) -> WorkPool {
        self.pool
    }

    /// The living entities.
    pub open spec fn alive(&self) -> Set<Entity> {
        self.spec_state().alive()
    }

    /// All entities that were ever created, in order.
    pub open spec fn history(&self) -> Seq<Entity> {
        self.spec_state().history()
    }

    /// Whether the world has the component.
    pub open spec fn manages(&self, id: ComponentId) -> bool {
        self.spec_state().manages(id)
    }

    /// The stored value of a component of an entity.
    pub open spec fn lookup(&self, e: Entity, id: ComponentId) -> Option<C::Value> {
        self.spec_state().lookup(e, id)
    }

    /// A component of an entity.
    pub open spec fn component<T: Component<Value = C::Value>>(&self, e: Entity) -> Option<T> {
        match self.lookup(e, T::spec_id()) {
            Some(v) => T::unpacked(v),
            None => None,
        }
    }

    /// The parts of the world agree with each other.
    pub open spec fn wf(&self) -> bool {
        self.spec_state().wf()
    }

    /// Whether another entity can be created.
    pub fn can_spawn(&self) -> (r: bool)
        ensures
            r == self.spec_state().has_room(),
    {
        self.state.can_spawn()
    }

    /// Create a new entity.
    pub fn next_entity(&mut self) -> (e: Entity)
        requires
            old(self).wf(),
            old(self).spec_state().has_room(),
        ensures
            final(self).wf(),
            final(self).spec_pool() == old(self).spec_pool(),
            !old(self).alive().contains(e),
            final(self).alive() == old(self).alive().insert(e),
            forall|id: ComponentId| #[trigger] final(self).manages(id) == old(self).manages(id),
            forall|x: Entity, id: ComponentId| #[trigger]
                final(self).lookup(x, id) == if x == e {
                    None
                } else {
                    old(self).lookup(x, id)
                },
            final(self).history() == old(self).history().push(e),
            old(self).history().contains(e) ==> MIN_UNUSED * entity::GENERATIONS <= old(
                self,
            ).history().len(),
            forall|k: int|
                0 <= k < old(self).history().len() && #[trigger] old(self).history()[k] == e ==> old(
                    self,
                ).history().len() - k > 255 * entity::spacing(),
            final(self).spec_state().tables() == old(self).spec_state().tables(),
            final(self).spec_state().living()[e].granularity == Granularity::Small,
            final(self).spec_state().free_slots(e) == seq![
                Slot { off: 0, size: Granularity::Small.bytes() },
            ],
            final(self).spec_state().kept_others(&old(self).spec_state(), e),
            forall|g: Granularity|
                g != Granularity::Small ==> #[trigger] final(self).spec_state().room(g) == old(
                    self,
                ).spec_state().room(g),
    {
        self.state.next_entity()
    }

    /// Whether an entity is alive.
    pub fn is_alive(&mut self, e: Entity) -> (r: bool)
        ensures
            *final(self) == *old(self),
            r == old(self).alive().contains(e),
    {
        self.state.is_alive(e)
    }

    /// Destroy an entity.
    pub fn destroy_entity(&mut self, e: Entity)
        requires
            old(self).wf(),
        ensures
            final(self).wf(),
            final(self).spec_pool() == old(self).spec_pool(),
            final(self).alive() == old(self).alive().remove(e),
            forall|id: ComponentId| #[trigger] final(self).manages(id) == old(self).manages(id),
            state::same_kinds(old(self).spec_state().tables(), final(self).spec_state().tables()),
            forall|x: Entity, id: ComponentId| #[trigger]
                final(self).lookup(x, id) == if x == e {
                    None
                } else {
                    old(self).lookup(x, id)
                },
            final(self).history() == old(self).history(),
            old(self).spec_state().has_room() ==> final(self).spec_state().has_room(),
            forall|g: Granularity|
                old(self).spec_state().room(g) ==> #[trigger] final(self).spec_state().room(g),
            final(self).spec_state().kept_others(&old(self).spec_state(), e),
    {
        self.state.destroy_entity(e);
    }

    /// Destroy all entities in the provided list.
    pub fn destroy_entities(&mut self, entities: &Vec<Entity>)
        requires
            old(self).wf(),
        ensures
            final(self).wf(),
            final(self).spec_pool() == old(self).spec_pool(),
            final(self).alive() == old(self).alive().difference(entities@.to_set()),
            forall|id: ComponentId| #[trigger] final(self).manages(id) == old(self).manages(id),
            state::same_kinds(old(self).spec_state().tables(), final(self).spec_state().tables()),
            forall|x: Entity, id: ComponentId| #[trigger]
                final(self).lookup(x, id) == if entities@.contains(x) {
                    None
                } else {
                    old(self).lookup(x, id)
                },
            final(self).history() == old(self).history(),
            old(self).spec_state().has_room() ==> final(self).spec_state().has_room(),
            forall|x: Entity|
                #![trigger final(self).spec_state().free_slots(x)]
                #![trigger final(self).spec_state().living()[x]]
                final(self).alive().contains(x) ==> {
                    &&& final(self).spec_state().living()[x] == old(self).spec_state().living()[x]
                    &&& final(self).spec_state().free_slots(x) == old(
                        self,
                    ).spec_state().free_slots(x)
                },
    {
        self.state.destroy_entities(entities);
    }

    /// Attempt to get a reference to an entity's component data.
    pub fn get_component<T: Component<Value = C::Value>>(&mut self, entity: Entity) -> (r: Option<
        &T,
    >)
        requires
            old(self).wf(),
            old(self).manages(T::spec_id()),
        ensures
            *final(self) == *old(self),
            match r {
                Some(c) => old(self).component::<T>(entity) == Some(*c),
                None => old(self).component::<T>(entity) is None,
            },
    {
        match self.state.get_component(entity, T::id()) {
            Some(v) => T::peek(v),
            None => None,
        }
    }

    /// Attempt to get a mutable reference to an entity's component data.
    pub fn get_mut_component<T: Component<Value = C::Value>>(&mut self, entity: Entity) -> (r:
        Option<&mut T>)
        requires
            old(self).wf(),
            old(self).manages(T::spec_id()),
        ensures
            final(self).wf(),
            final(self).spec_pool() == old(self).spec_pool(),
            final(self).alive() == old(self).alive(),
            forall|id: ComponentId| #[trigger] final(self).manages(id) == old(self).manages(id),
            state::same_kinds(old(self).spec_state().tables(), final(self).spec_state().tables()),
            final(self).history() == old(self).history(),
            forall|x: Entity, id: ComponentId|
                x != entity || id != T::spec_id() ==> #[trigger] final(self).lookup(x, id) == old(
                    self,
                ).lookup(x, id),
            match r {
                Some(c) => {
                    &&& old(self).component::<T>(entity) == Some(*c)
                    &&& final(self).component::<T>(entity) == Some(*final(c))
                },
                None => {
                    &&& old(self).component::<T>(entity) is None
                    &&& final(self).lookup(entity, T::spec_id()) == old(self).lookup(
                        entity,
                        T::spec_id(),
                    )
                },
            },
            final(self).spec_state().kept_others(&old(self).spec_state(), entity),
            final(self).spec_state().living() == old(self).spec_state().living(),
            final(self).spec_state().free_slots(entity) == old(self).spec_state().free_slots(
                entity,
            ),
            final(self).spec_state().has_room() == old(self).spec_state().has_room(),
            forall|g: Granularity| #[trigger]
                final(self).spec_state().room(g) == old(self).spec_state().room(g),
    {
        match self.state.get_mut_component(entity, T::id()) {
            Some(v) => T::peek_mut(v),
            None => None,
        }
    }

    /// Whether an entity has a component.
    pub fn has_component<T: Component<Value = C::Value>>(&mut self, entity: Entity) -> (r: bool)
        requires
            old(self).wf(),
            old(self).manages(T::spec_id()),
        ensures
            *final(self) == *old(self),
            r == (old(self).lookup(entity, T::spec_id()) is Some),
    {
        self.state.has_component(entity, T::id())
    }

    /// Whether the component data of an entity can be set: there may be too much
    /// of it.
    pub fn can_set<T: Component<Value = C::Value>>(&self, entity: Entity) -> (r: bool)
        requires
            self.wf(),
            self.manages(T::spec_id()),
        ensures
            r == self.spec_state().has_space_for(entity, T::spec_id()),
    {
        self.state.can_set(entity, T::id())
    }

    /// Manually set the component data for an entity.
    /// Returns the old data, if it existed.
    pub fn set_component<T: Component<Value = C::Value>>(
        &mut self,
        entity: Entity,
        component: T,
    ) -> (r: Option<T>)
        requires
            old(self).wf(),
            old(self).manages(T::spec_id()),
            old(self).spec_state().has_space_for(entity, T::spec_id()),
        ensures
            final(self).wf(),
            final(self).spec_pool() == old(self).spec_pool(),
            r == old(self).component::<T>(entity),
            final(self).alive() == old(self).alive(),
            forall|id: ComponentId| #[trigger] final(self).manages(id) == old(self).manages(id),
            state::same_kinds(old(self).spec_state().tables(), final(self).spec_state().tables()),
            final(self).history() == old(self).history(),
            old(self).alive().contains(entity) ==> final(self).component::<T>(entity) == Some(
                component,
            ),
            !old(self).alive().contains(entity) ==> final(self).lookup(
                entity,
                T::spec_id(),
            ) is None,
            forall|x: Entity, id: ComponentId|
                x != entity || id != T::spec_id() ==> #[trigger] final(self).lookup(x, id) == old(
                    self,
                ).lookup(x, id),
            old(self).spec_state().attached(&final(self).spec_state(), entity, T::spec_id()),
            final(self).spec_state().kept_others(&old(self).spec_state(), entity),
            old(self).spec_state().has_room() ==> final(self).spec_state().has_room(),
            final(self).spec_state().kept_room(&old(self).spec_state(), entity),
    {
        match self.state.set_component(entity, T::id(), component.pack()) {
            Some(v) => T::unpack(v),
            None => None,
        }
    }

    /// Manually remove the component data for an entity.
    /// Returns the old data, if it existed.
    pub fn remove_component<T: Component<Value = C::Value>>(&mut self, entity: Entity) -> (r:
        Option<T>)
        requires
            old(self).wf(),
            old(self).manages(T::spec_id()),
        ensures
            final(self).wf(),
            final(self).spec_pool() == old(self).spec_pool(),
            r == old(self).component::<T>(entity),
            final(self).alive() == old(self).alive(),
            forall|id: ComponentId| #[trigger] final(self).manages(id) == old(self).manages(id),
            state::same_kinds(old(self).spec_state().tables(), final(self).spec_state().tables()),
            final(self).history() == old(self).history(),
            forall|x: Entity, id: ComponentId| #[trigger]
                final(self).lookup(x, id) == if x == entity && id == T::spec_id() {
                    None
                } else {
                    old(self).lookup(x, id)
                },
            old(self).spec_state().detached(&final(self).spec_state(), entity, T::spec_id()),
            final(self).spec_state().kept_others(&old(self).spec_state(), entity),
            final(self).spec_state().has_room() == old(self).spec_state().has_room(),
            forall|g: Granularity| #[trigger]
                final(self).spec_state().room(g) == old(self).spec_state().room(g),
    {
        match self.state.remove_component(entity, T::id()) {
            Some(v) => T::unpack(v),
            None => None,
        }
    }
}

/// Used to build a world with the given components.
pub struct WorldBuilder<T: PhantomComponents> {
    phantoms: T,
    /// The number of threads to create the thread pool with.
    pub num_threads: usize,
}

impl<V> WorldBuilder<Empty<V>> {
    /// Creates a new world builder with no components and one thread for every logical CPU.
    pub fn new() -> (r: Self)
        ensures
            r.wf(),
            r.spec_phantoms().kinds() == Map::<
                ComponentId,
                super::offset_table::ComponentKind,
            >::empty(),
            cpus_counted(r.spec_threads()),
            1 <= r.spec_threads(),
    {
        WorldBuilder {
            phantoms: make_empty(),
            // may want to get physical cores.
            num_threads: logical_cpus(),
        }
    }
}

impl<T: PhantomComponents> WorldBuilder<T> {
    /// The components that the world will have.
    pub closed spec fn spec_phantoms(&self) -> T {
        self.phantoms
    }

    /// The number of threads to create the thread pool with.
    pub closed spec fn spec_threads(&self) -> usize {
        self.num_threads
    }

    /// Each component fits in a block.
    pub open spec fn wf(&self) -> bool {
        forall|id: ComponentId| #[trigger]
            self.spec_phantoms().kinds().contains_key(id) ==> 0
                <= self.spec_phantoms().kinds()[id].size <= LARGE_SIZE
    }

    /// Whether the component was added before.
    pub fn has_component<C: Component<Value = T::Value>>(&self) -> (r: bool)
        ensures
            r == self.spec_phantoms().kinds().contains_key(C::spec_id()),
    {
        self.phantoms.has::<C>()
    }

    /// Add a component to the world.
    /// The same component must not be added more than once.
    pub fn with_component<C: Component<Value = T::Value>>(self) -> (r: WorldBuilder<
        ListEntry<PhantomData<C>, T>,
    >)
        requires
            self.wf(),
            !self.spec_phantoms().kinds().contains_key(C::spec_id()),
            component::compliant::<C>(),
        ensures
            r.wf(),
            r.spec_phantoms().kinds() == self.spec_phantoms().kinds().insert(
                C::spec_id(),
                component::kind_of::<C>(),
            ),
            r.spec_threads() == self.spec_threads(),
    {
        WorldBuilder { phantoms: self.phantoms.push::<C>(), num_threads: self.num_threads }
    }

    /// Set the number of threads to create the internal thread pool with.
    pub fn num_threads(self, threads: usize) -> (r: Self)
        ensures
            r.spec_phantoms() == self.spec_phantoms(),
            r.spec_threads() == threads,
    {
        WorldBuilder { phantoms: self.phantoms, num_threads: threads }
    }

    /// Consume this builder and create a world that runs on the given pool.
    pub fn build_on(self, pool: Result<WorkPool, std::io::Error>) -> (r: Result<
        World<T::Components>,
        BuildError,
    >)
        requires
            self.wf(),
        ensures
            match pool {
                Ok(threads) => {
                    &&& r matches Ok(world)
                    &&& world.spec_pool() == threads
                    &&& world.wf()
                    &&& world.alive() == Set::<Entity>::empty()
                    &&& world.history() == Seq::<Entity>::empty()
                    &&& world.spec_state().has_room()
                    &&& forall|g: Granularity| #[trigger] world.spec_state().room(g)
                    &&& forall|id: ComponentId| #[trigger]
                        world.manages(id) == self.spec_phantoms().kinds().contains_key(id)
                    &&& forall|id: ComponentId| #[trigger]
                        world.manages(id) ==> world.spec_state().tables()[id].kind()
                            == self.spec_phantoms().kinds()[id]
                },
                Err(_) => r == Err::<World<T::Components>, BuildError>(BuildError::NoPool),
            },
    {
        match pool {
            Ok(pool) => {
                let ghost kinds = self.spec_phantoms().kinds();
                let components = self.phantoms.into_components();
                proof {
                    assert forall|id: ComponentId| #[trigger]
                        components.tables().contains_key(id) implies {
                        &&& 0 <= components.tables()[id].kind().size <= LARGE_SIZE
                        &&& forall|i: int| #[trigger] components.tables()[id].entry(i) is None
                        &&& forall|i: int| #[trigger] components.tables()[id].unit(i) is None
                    } by {
                        assert(kinds.contains_key(id));
                    }
                }
                Ok(World { state: State::new(components), pool })
            },
            Err(_) => Err(BuildError::NoPool),
        }
    }

    /// Consume this builder and create a world.
    /// Fails if it fails to create the thread pool.
    pub fn build(self) -> (r: Result<World<T::Components>, BuildError>)
        requires
            self.wf(),
        ensures
            r == Err::<World<T::Components>, BuildError>(BuildError::TooManyThreads)
                <==> self.spec_threads() > MAX_THREADS,
            self.spec_threads() == 0 ==> r is Ok,
            r matches Ok(world) ==> {
                &&& world.wf()
                &&& world.alive() == Set::<Entity>::empty()
                &&& world.history() == Seq::<Entity>::empty()
                &&& world.spec_state().has_room()
                &&& forall|g: Granularity| #[trigger] world.spec_state().room(g)
                &&& forall|id: ComponentId| #[trigger]
                    world.manages(id) == self.spec_phantoms().kinds().contains_key(id)
                &&& forall|id: ComponentId| #[trigger]
                    world.manages(id) ==> world.spec_state().tables()[id].kind()
                        == self.spec_phantoms().kinds()[id]
            },
            r matches Ok(world) ==> pool_started(self.spec_threads(), world.spec_pool()),
            self.spec_threads() <= MAX_THREADS ==> pool_answers(self.spec_threads(), r is Ok),
            r matches Err(e) ==> e == if self.spec_threads() > MAX_THREADS {
                BuildError::TooManyThreads
            } else {
                BuildError::NoPool
            },
    {
        if self.num_threads > MAX_THREADS {
            return Err(BuildError::TooManyThreads);
        }
        let pool = start_pool(self.num_threads);
        self.build_on(pool)
    }
}

/// A world that was built has the components that were added, each with its size and its
/// dependencies, and no others.
pub proof fn law_worlds_have_the_components_added<
    T: PhantomComponents,
    C: Component<Value = T::Value>,
>(
    before: WorldBuilder<T>,
    after: WorldBuilder<ListEntry<PhantomData<C>, T>>,
    pool: WorkPool,
    world: World<<ListEntry<PhantomData<C>, T> as PhantomComponents>::Components>,
    id: ComponentId,
)
    requires
        call_ensures(WorldBuilder::<T>::with_component::<C>, (before,), after),
        call_ensures(
            WorldBuilder::<ListEntry<PhantomData<C>, T>>::build_on,
            (after, Ok::<WorkPool, std::io::Error>(pool)),
            Ok::<
                World<<ListEntry<PhantomData<C>, T> as PhantomComponents>::Components>,
                BuildError,
            >(world),
        ),
    ensures
        world.manages(C::spec_id()),
        world.spec_state().tables()[C::spec_id()].kind().size == vstd::layout::size_of::<C>(),
        world.spec_state().tables()[C::spec_id()].kind().dependencies == C::spec_dependencies(),
        id != C::spec_id() ==> world.manages(id) == before.spec_phantoms().kinds().contains_key(id),
        id != C::spec_id() && world.manages(id) ==> world.spec_state().tables()[id].kind()
            == before.spec_phantoms().kinds()[id],
        world.spec_pool() == pool,
{
    assert(world.manages(C::spec_id()));
}

/// What was set for a living entity is read back, and what was removed is not there, whatever
/// other components the entity has.
pub proof fn law_reads_give_back_what_was_written<C: Components, T: Component<Value = C::Value>>(
    e: Entity,
    c: T,
    replaced: Option<T>,
    removed: Option<T>,
)
    ensures
        forall|w: &mut World<C>|
            w.alive().contains(e) && #[trigger] call_ensures(
                World::<C>::set_component::<T>,
                (w, e, c),
                replaced,
            ) ==> {
                &&& replaced == w.component::<T>(e)
                &&& final(w).component::<T>(e) == Some(c)
                &&& final(w).alive() == w.alive()
                &&& forall|x: Entity, id: ComponentId|
                    x != e || id != T::spec_id() ==> #[trigger] final(w).lookup(x, id) == w.lookup(
                        x,
                        id,
                    )
            },
        forall|w: &mut World<C>| #[trigger]
            call_ensures(World::<C>::remove_component::<T>, (w, e), removed) ==> {
                &&& removed == w.component::<T>(e)
                &&& final(w).component::<T>(e) is None
                &&& final(w).alive() == w.alive()
                &&& forall|x: Entity, id: ComponentId|
                    x != e || id != T::spec_id() ==> #[trigger] final(w).lookup(x, id) == w.lookup(
                        x,
                        id,
                    )
            },
{
}

/// The component data of an entity can be set as long as there is space for it: it takes up its
/// size, rounded up to the next multiple of 16, in the entity's block, or in one of the least
/// granularity that holds a whole block as it is and the component besides.
pub proof fn law_worlds_hold_what_there_is_room_for<C: Components, T: Component<Value = C::Value>>(
    w: &World<C>,
    e: Entity,
    r: bool,
    need: int,
    h: Granularity,
)
    requires
        w.wf(),
        w.manages(T::spec_id()),
        call_ensures(World::<C>::can_set::<T>, (w, e), r),
        need % 16 == 0,
        w.spec_state().tables()[T::spec_id()].kind().size <= need
            < w.spec_state().tables()[T::spec_id()].kind().size + 16,
        w.spec_state().living()[e].granularity.bytes() + need <= h.bytes(),
        forall|g: Granularity|
            w.spec_state().living()[e].granularity.bytes() + need <= #[trigger] g.bytes()
                ==> h.bytes() <= g.bytes(),
        w.spec_state().room(h),
    ensures
        r,
{
    state::lemma_has_space(&w.spec_state(), e, T::spec_id(), need);
}

} // verus!
