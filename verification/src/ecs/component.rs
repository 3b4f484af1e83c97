//! This module contains component-related types and traits.
//!
//! Included are lists of component types: the components which worlds operate
//! over, first as mere types and then as offset tables.

use core::marker::PhantomData;
use vstd::prelude::*;
use super::{COMPONENT_ALIGN, LARGE_SIZE};
use super::entity::Entity;
use super::offset_table::{ComponentId, ComponentKind, ComponentOffsetTable};
use super::offset_table;

verus! {

/// Components are arbitrary data associated with entities.
///
/// A world stores the data of all its components as values of one type. A
/// component tells how it is made into such a value, and found in it again.
pub trait Component: Sized {
    /// What a world stores.
    type Value;

    /// The number that tells this component from the others.
    spec fn spec_id() -> ComponentId;

    /// The components that every entity with this component must also have.
    spec fn spec_dependencies() -> Seq<ComponentId>;

    /// The component that a value holds.
    spec fn unpacked(v: Self::Value) -> Option<Self>;

    /// The number that tells this component from the others.
    fn id() -> (r: ComponentId)
        ensures
            r == Self::spec_id(),
    ;

    /// A list of dependencies which this component has, i.e.
    /// every entity with this component must also have each of
    /// components in the list.
    fn dependencies() -> (r: Vec<ComponentId>)
        ensures
            r@ == Self::spec_dependencies(),
    ;

    /// Makes the component into a value.
    fn pack(self) -> (v: Self::Value)
        ensures
            Self::unpacked(v) == Some(self),
    ;

    /// Takes the component out of a value.
    fn unpack(v: Self::Value) -> (r: Option<Self>)
        ensures
            r == Self::unpacked(v),
    ;

    /// The component in a value.
    fn peek(v: &Self::Value) -> (r: Option<&Self>)
        ensures
            match r {
                Some(c) => Self::unpacked(*v) == Some(*c),
                None => Self::unpacked(*v) is None,
            },
    ;

    /// Access to the component in a value.
    fn peek_mut(v: &mut Self::Value) -> (r: Option<&mut Self>)
        ensures
            match r {
                Some(c) => {
                    &&& Self::unpacked(*old(v)) == Some(*c)
                    &&& Self::unpacked(*final(v)) == Some(*final(c))
                },
                None => {
                    &&& Self::unpacked(*old(v)) is None
                    &&& *final(v) == *old(v)
                },
            },
    ;
}

/// Why a type cannot be a component.
#[derive(Clone, Copy, Debug, PartialEq, Eq, Structural)]
pub enum Noncompliance {
    /// Component alignment too large.
    Alignment,
    /// Component size too large.
    Size,
}

/// The alignment of `T` is supported, and a value of `T` fits in a block.
pub open spec fn compliant<T>() -> bool {
    &&& vstd::layout::align_of::<T>() <= COMPONENT_ALIGN
    &&& vstd::layout::size_of::<T>() <= LARGE_SIZE
}

/// What a world knows of the component `T`.
pub open spec fn kind_of<T: Component>() -> ComponentKind {
    ComponentKind {
        size: vstd::layout::size_of::<T>() as int,
        dependencies: T::spec_dependencies(),
    }
}

/// Any checks for component types which cannot be done at compile-time
/// are done here.
pub fn assert_component_compliance<T: Component>() -> (r: Result<(), Noncompliance>)
    ensures
        r is Ok <==> compliant::<T>(),
        r == Err::<(), Noncompliance>(Noncompliance::Alignment) <==> vstd::layout::align_of::<T>()
            > COMPONENT_ALIGN,
{
    if core::mem::align_of::<T>() > COMPONENT_ALIGN {
        Err(Noncompliance::Alignment)
    } else if core::mem::size_of::<T>() > LARGE_SIZE {
        Err(Noncompliance::Size)
    } else {
        Ok(())
    }
}

/// Non-empty case of a list entry.
pub struct ListEntry<T, P> {
    val: T,
    parent: P,
}

impl<T, P> ListEntry<T, P> {
    /// The list without this entry.
    pub closed spec fn rest(&self) -> P {
        self.parent
    }

    /// What the list has for the component that was added last.
    pub closed spec fn newest(&self) -> T {
        self.val
    }
}

/// Empty case of a list entry.
pub struct Empty<V> {
    marker: PhantomData<V>,
}

/// The empty list.
pub fn make_empty<V>() -> (r: Empty<V>)
    ensures
        r.kinds() == Map::<ComponentId, ComponentKind>::empty(),
        r.tables() == Map::<ComponentId, ComponentOffsetTable<V>>::empty(),
{
    Empty { marker: PhantomData }
}

/// A list of components where each entry is a zero-sized PhantomData.
/// This is used to signify which components a world will manage, without yet constructing
/// the offset tables themselves.
pub trait PhantomComponents: Sized {
    /// What the world will store.
    type Value;

    /// The list of offset tables for these components.
    type Components: Components<Value = Self::Value>;

    /// The components of the list.
    spec fn kinds(&self) -> Map<ComponentId, ComponentKind>;

    /// Push another component type onto this list, which must not be in it yet.
    fn push<T: Component<Value = Self::Value>>(self) -> (r: ListEntry<PhantomData<T>, Self>)
        requires
            !self.kinds().contains_key(T::spec_id()),
            compliant::<T>(),
        ensures
            r.rest() == self,
    ;

    /// Whether the list has the component.
    fn has<T: Component<Value = Self::Value>>(&self) -> (r: bool)
        ensures
            r == self.kinds().contains_key(T::spec_id()),
    ;

    /// Makes an offset table for each component.
    fn into_components(self) -> (r: Self::Components)
        ensures
            r.tables().dom() == self.kinds().dom(),
            forall|id: ComponentId| #[trigger]
                r.tables().contains_key(id) ==> {
                    &&& r.tables()[id].component() == id
                    &&& r.tables()[id].kind() == self.kinds()[id]
                    &&& forall|i: int| #[trigger] r.tables()[id].entry(i) is None
                    &&& forall|i: int| #[trigger] r.tables()[id].unit(i) is None
                },
    ;
}

/// A component that an entity lacks although another of its components
/// depends on it.
#[derive(Clone, Copy, Debug, PartialEq, Eq, Structural)]
pub struct Unmet {
    pub missing: ComponentId,
    pub required_by: ComponentId,
}

/// Whether a slot has data of a component.
pub open spec fn has_entry<V>(
    tables: Map<ComponentId, ComponentOffsetTable<V>>,
    id: ComponentId,
    index: int,
) -> bool {
    tables[id].entry(index) is Some
}

/// All of the components are in the list of tables.
pub open spec fn all_known<V>(
    tables: Map<ComponentId, ComponentOffsetTable<V>>,
    ids: Seq<ComponentId>,
) -> bool {
    forall|k: int| 0 <= k < ids.len() ==> tables.contains_key(#[trigger] ids[k])
}

/// The first of the components that a slot has no data of.
pub open spec fn first_missing<V>(
    tables: Map<ComponentId, ComponentOffsetTable<V>>,
    ids: Seq<ComponentId>,
    index: int,
) -> Option<ComponentId>
    decreases ids.len(),
{
    if ids.len() == 0 {
        None
    } else if !has_entry(tables, ids[0], index) {
        Some(ids[0])
    } else {
        first_missing(tables, ids.drop_first(), index)
    }
}

/// No component is missing exactly where the slot has data of each.
pub proof fn lemma_first_missing<V>(
    tables: Map<ComponentId, ComponentOffsetTable<V>>,
    ids: Seq<ComponentId>,
    index: int,
)
    ensures
        first_missing(tables, ids, index) is None <==> (forall|k: int|
            0 <= k < ids.len() ==> has_entry(tables, #[trigger] ids[k], index)),
        first_missing(tables, ids, index) matches Some(id) ==> ids.contains(id) && !has_entry(
            tables,
            id,
            index,
        ),
    decreases ids.len(),
{
    if ids.len() > 0 {
        let rest = ids.drop_first();
        lemma_first_missing(tables, rest, index);
        assert(forall|k: int| 0 <= k < rest.len() ==> #[trigger] rest[k] == ids[k + 1]);
        assert forall|k: int| 0 < k < ids.len() implies #[trigger] ids[k] == rest[k - 1] by {
        }
        assert(ids.contains(ids[0]));
        if let Some(id) = first_missing(tables, rest, index) {
            let k = choose|k: int| 0 <= k < rest.len() && rest[k] == id;
            assert(ids[k + 1] == id);
        }
    }
}

/// Every dependency of every component that the slot has data of is met.
pub open spec fn dependencies_met<V>(
    tables: Map<ComponentId, ComponentOffsetTable<V>>,
    top_level: Map<ComponentId, ComponentOffsetTable<V>>,
    index: int,
) -> bool {
    forall|id: ComponentId, k: int|
        tables.contains_key(id) && tables[id].entry(index) is Some && 0 <= k
            < tables[id].kind().dependencies.len() ==> has_entry(
            top_level,
            #[trigger] tables[id].kind().dependencies[k],
            index,
        )
}

/// A list where each entry is an offset table for that component.
pub trait Components: Sized {
    /// What the world stores.
    type Value;

    /// The tables by their components.
    spec fn tables(&self) -> Map<ComponentId, ComponentOffsetTable<Self::Value>>;

    /// Each table is found by its component.
    proof fn lemma_tables(&self)
        ensures
            forall|id: ComponentId| #[trigger]
                self.tables().contains_key(id) ==> self.tables()[id].component() == id,
    ;

    /// Whether the list has a table for the given component.
    fn has(&self, id: ComponentId) -> (r: bool)
        ensures
            r == self.tables().contains_key(id),
    ;

    /// Get a reference to the offset table for the given component.
    fn get(&self, id: ComponentId) -> (r: &ComponentOffsetTable<Self::Value>)
        requires
            self.tables().contains_key(id),
        ensures
            *r == self.tables()[id],
            r.component() == id,
    ;

    /// Get a mutable reference to the offset table for the given component.
    fn get_mut(&mut self, id: ComponentId) -> (r: &mut ComponentOffsetTable<Self::Value>)
        requires
            old(self).tables().contains_key(id),
        ensures
            *r == old(self).tables()[id],
            r.component() == id,
            final(r).component() == id ==> final(self).tables() == old(self).tables().insert(
                id,
                *final(r),
            ),
    ;

    /// Remove all component offsets from each entity in the list.
    /// We batch this because each component offset table may be located
    /// somewhere else in memory, so we try to minimize cache misses.
    fn clear_components_for(&mut self, entities: &Vec<Entity>)
        ensures
            final(self).tables().dom() == old(self).tables().dom(),
            forall|id: ComponentId| #[trigger]
                final(self).tables().contains_key(id) ==> cleared_for(
                    old(self).tables()[id],
                    final(self).tables()[id],
                    entities@,
                ),
    ;
}

/// A list of offset tables whose dependencies can be checked.
pub trait CheckDependencies: Components {
    /// The first dependency that is not met, from the newest table to the oldest.
    spec fn unmet(
        &self,
        top_level: Map<ComponentId, ComponentOffsetTable<Self::Value>>,
        index: int,
    ) -> Option<Unmet>;

    /// All dependencies of the components that a slot has data of are in the
    /// list of tables.
    spec fn dependencies_known(
        &self,
        top_level: Map<ComponentId, ComponentOffsetTable<Self::Value>>,
        index: int,
    ) -> bool;

    /// No component has two tables in the list.
    spec fn one_table_each(&self) -> bool;

    /// Check that all component dependencies are fulfilled.
    fn assert_dependencies<T: Components<Value = Self::Value>>(
        &self,
        top_level: &T,
        entity: Entity,
    ) -> (r: Result<(), Unmet>)
        requires
            self.dependencies_known(top_level.tables(), entity.index()),
        ensures
            r == match self.unmet(top_level.tables(), entity.index()) {
                Some(u) => Err::<(), Unmet>(u),
                None => Ok::<(), Unmet>(()),
            },
            r is Ok ==> dependencies_met(self.tables(), top_level.tables(), entity.index()),
            r matches Err(u) ==> !has_entry(top_level.tables(), u.missing, entity.index()),
            self.one_table_each() ==> (r matches Err(u) ==> {
                &&& self.tables().contains_key(u.required_by)
                &&& self.tables()[u.required_by].entry(entity.index()) is Some
                &&& self.tables()[u.required_by].kind().dependencies.contains(u.missing)
            }),
    ;
}

/// The first of the components that an entity has no data of.
fn find_missing<C: Components>(components: &C, ids: &Vec<ComponentId>, e: Entity) -> (r: Option<
    ComponentId,
>)
    requires
        all_known(components.tables(), ids@),
    ensures
        r == first_missing(components.tables(), ids@, e.index()),
{
    let mut n: usize = 0;
    assert(ids@.skip(0) =~= ids@);
    while n < ids.len()
        invariant
            n <= ids@.len(),
            all_known(components.tables(), ids@),
            first_missing(components.tables(), ids@, e.index()) == first_missing(
                components.tables(),
                ids@.skip(n as int),
                e.index(),
            ),
        decreases ids@.len() - n,
    {
        assert(ids@.skip(n as int)[0] == ids@[n as int]);
        assert(ids@.skip(n as int).drop_first() =~= ids@.skip(n + 1));
        if components.get(ids[n]).offset_of(e).is_none() {
            return Some(ids[n]);
        }
        n = n + 1;
    }
    None
}

/// What clearing the entities of a list does to a table.
pub open spec fn cleared_for<V>(
    before: ComponentOffsetTable<V>,
    after: ComponentOffsetTable<V>,
    entities: Seq<Entity>,
) -> bool {
    &&& after.same_component(&before)
    &&& forall|i: int| #[trigger]
        after.entry(i) == if offset_table::lists_slot(entities, i) {
            None
        } else {
            before.entry(i)
        }
    &&& forall|i: int| #[trigger]
        after.unit(i) == if offset_table::lists_slot(entities, i) {
            None
        } else {
            before.unit(i)
        }
}

impl<V> PhantomComponents for Empty<V> {
    type Value = V;

    type Components = Empty<V>;

    open spec fn kinds(&self) -> Map<ComponentId, ComponentKind> {
        Map::empty()
    }

    fn push<T: Component<Value = V>>(self) -> (r: ListEntry<PhantomData<T>, Self>) {
        ListEntry { val: PhantomData, parent: self }
    }

    fn has<T: Component<Value = V>>(&self) -> (r: bool) {
        false
    }

    fn into_components(self) -> (r: Empty<V>) {
        make_empty()
    }
}

impl<C: Component<Value = P::Value>, P: PhantomComponents> PhantomComponents for ListEntry<
    PhantomData<C>,
    P,
> {
    type Value = P::Value;

    type Components = ListEntry<ComponentOffsetTable<P::Value>, P::Components>;

    open spec fn kinds(&self) -> Map<ComponentId, ComponentKind> {
        self.rest().kinds().insert(C::spec_id(), kind_of::<C>())
    }

    fn push<T: Component<Value = P::Value>>(self) -> (r: ListEntry<PhantomData<T>, Self>) {
        ListEntry { val: PhantomData, parent: self }
    }

    fn has<T: Component<Value = P::Value>>(&self) -> (r: bool) {
        T::id() == C::id() || self.parent.has::<T>()
    }

    fn into_components(self) -> (r: Self::Components) {
        ListEntry {
            val: ComponentOffsetTable::new(C::id(), core::mem::size_of::<C>(), C::dependencies()),
            parent: self.parent.into_components(),
        }
    }
}

impl<V> Components for Empty<V> {
    type Value = V;

    open spec fn tables(&self) -> Map<ComponentId, ComponentOffsetTable<V>> {
        Map::empty()
    }

    proof fn lemma_tables(&self) {
    }

    fn has(&self, id: ComponentId) -> (r: bool) {
        false
    }

    fn get(&self, id: ComponentId) -> (r: &ComponentOffsetTable<V>) {
        assert(false);
        loop
            invariant
                false,
            decreases 0int,
        {
        }
    }

    fn get_mut(&mut self, id: ComponentId) -> (r: &mut ComponentOffsetTable<V>) {
        assert(false);
        loop
            invariant
                false,
            decreases 0int,
        {
        }
    }

    fn clear_components_for(&mut self, entities: &Vec<Entity>) {
    }
}

impl<V> CheckDependencies for Empty<V> {
    open spec fn unmet(
        &self,
        top_level: Map<ComponentId, ComponentOffsetTable<V>>,
        index: int,
    ) -> Option<Unmet> {
        None
    }

    open spec fn dependencies_known(
        &self,
        top_level: Map<ComponentId, ComponentOffsetTable<V>>,
        index: int,
    ) -> bool {
        true
    }

    open spec fn one_table_each(&self) -> bool {
        true
    }

    fn assert_dependencies<T: Components<Value = V>>(
        &self,
        top_level: &T,
        entity: Entity,
    ) -> (r: Result<(), Unmet>) {
        Ok(())
    }
}

impl<P: Components> Components for ListEntry<ComponentOffsetTable<P::Value>, P> {
    type Value = P::Value;

    closed spec fn tables(&self) -> Map<ComponentId, ComponentOffsetTable<P::Value>> {
        self.parent.tables().insert(self.val.component(), self.val)
    }

    proof fn lemma_tables(&self) {
        self.parent.lemma_tables();
    }

    fn has(&self, id: ComponentId) -> (r: bool) {
        id == self.val.id() || self.parent.has(id)
    }

    fn get(&self, id: ComponentId) -> (r: &ComponentOffsetTable<P::Value>) {
        if id == self.val.id() {
            &self.val
        } else {
            self.parent.get(id)
        }
    }

    fn get_mut(&mut self, id: ComponentId) -> (r: &mut ComponentOffsetTable<P::Value>) {
        if id == self.val.id() {
            &mut self.val
        } else {
            self.parent.get_mut(id)
        }
    }

    fn clear_components_for(&mut self, entities: &Vec<Entity>) {
        self.val.clear_for(entities);
        self.parent.clear_components_for(entities);
        proof {
            assert(self.tables().dom() =~= old(self).tables().dom());
        }
    }
}

impl<P: CheckDependencies> CheckDependencies for ListEntry<ComponentOffsetTable<P::Value>, P> {
    closed spec fn unmet(
        &self,
        top_level: Map<ComponentId, ComponentOffsetTable<P::Value>>,
        index: int,
    ) -> Option<Unmet> {
        let missing = first_missing(top_level, self.val.kind().dependencies, index);
        if self.val.entry(index) is Some && missing is Some {
            Some(Unmet { missing: missing->0, required_by: self.val.component() })
        } else {
            self.parent.unmet(top_level, index)
        }
    }

    closed spec fn dependencies_known(
        &self,
        top_level: Map<ComponentId, ComponentOffsetTable<P::Value>>,
        index: int,
    ) -> bool {
        &&& self.val.entry(index) is Some ==> all_known(top_level, self.val.kind().dependencies)
        &&& self.parent.dependencies_known(top_level, index)
    }

    closed spec fn one_table_each(&self) -> bool {
        &&& !self.parent.tables().contains_key(self.val.component())
        &&& self.parent.one_table_each()
    }

    fn assert_dependencies<T: Components<Value = P::Value>>(
        &self,
        top_level: &T,
        entity: Entity,
    ) -> (r: Result<(), Unmet>) {
        proof {
            lemma_first_missing(
                top_level.tables(),
                self.val.kind().dependencies,
                entity.index(),
            );
        }
        if self.val.offset_of(entity).is_some() {
            if let Some(missing) = find_missing(top_level, self.val.dependencies(), entity) {
                return Err(Unmet { missing, required_by: self.val.id() });
            }
        }
        self.parent.assert_dependencies(top_level, entity)
    }
}

/// Trait for sets of components. This is intended to be used by the general user in the form of its
/// tuple implementation as arguments to queries, dependencies for components, and possibly more.
/// The trait itself shouldn't be implemented by the user, and using custom implementations will
/// most likely break functionality of the ECS.
pub trait ComponentSet {
    /// The components of the set.
    spec fn spec_ids() -> Seq<ComponentId>;

    /// The components of the set.
    fn ids() -> (r: Vec<ComponentId>)
        ensures
            r@ == Self::spec_ids(),
    ;

    /// Whether this component set contains the type T.
    fn contains<T: Component>() -> (r: bool)
        ensures
            r == Self::spec_ids().contains(T::spec_id()),
    {
        let ids = Self::ids();
        let mut n: usize = 0;
        while n < ids.len()
            invariant
                n <= ids@.len(),
                ids@ == Self::spec_ids(),
                forall|k: int| 0 <= k < n ==> #[trigger] ids@[k] != T::spec_id(),
            decreases ids@.len() - n,
        {
            if ids[n] == T::id() {
                return true;
            }
            n = n + 1;
        }
        false
    }

    /// Whether an entity has all of the components in this set.
    /// This will either return Ok, or an error with the first component it failed
    /// to have.
    fn has_all<C: Components>(components: &C, e: Entity) -> (r: Result<(), ComponentId>)
        requires
            all_known(components.tables(), Self::spec_ids()),
        ensures
            r == match first_missing(components.tables(), Self::spec_ids(), e.index()) {
                Some(id) => Err::<(), ComponentId>(id),
                None => Ok::<(), ComponentId>(()),
            },
    {
        match find_missing(components, &Self::ids(), e) {
            Some(id) => Err(id),
            None => Ok(()),
        }
    }
}

impl<T: Component> ComponentSet for T {
    open spec fn spec_ids() -> Seq<ComponentId> {
        seq![T::spec_id()]
    }

    fn ids() -> (r: Vec<ComponentId>) {
        vec![T::id()]
    }
}

impl<A: Component, B: Component, C: Component, D: Component, E: Component, F: Component, G: Component, H: Component, I: Component, J: Component, K: Component, L: Component> ComponentSet for (A, B, C, D, E, F, G, H, I, J, K, L) {
    open spec fn spec_ids() -> Seq<ComponentId> {
        seq![A::spec_id(), B::spec_id(), C::spec_id(), D::spec_id(), E::spec_id(), F::spec_id(), G::spec_id(), H::spec_id(), I::spec_id(), J::spec_id(), K::spec_id(), L::spec_id()]
    }

    fn ids() -> (r: Vec<ComponentId>) {
        vec![A::id(), B::id(), C::id(), D::id(), E::id(), F::id(), G::id(), H::id(), I::id(), J::id(), K::id(), L::id()]
    }
}

impl<A: Component, B: Component, C: Component, D: Component, E: Component, F: Component, G: Component, H: Component, I: Component, J: Component, K: Component> ComponentSet for (A, B, C, D, E, F, G, H, I, J, K) {
    open spec fn spec_ids() -> Seq<ComponentId> {
        seq![A::spec_id(), B::spec_id(), C::spec_id(), D::spec_id(), E::spec_id(), F::spec_id(), G::spec_id(), H::spec_id(), I::spec_id(), J::spec_id(), K::spec_id()]
    }

    fn ids() -> (r: Vec<ComponentId>) {
        vec![A::id(), B::id(), C::id(), D::id(), E::id(), F::id(), G::id(), H::id(), I::id(), J::id(), K::id()]
    }
}

impl<A: Component, B: Component, C: Component, D: Component, E: Component, F: Component, G: Component, H: Component, I: Component, J: Component> ComponentSet for (A, B, C, D, E, F, G, H, I, J) {
    open spec fn spec_ids() -> Seq<ComponentId> {
        seq![A::spec_id(), B::spec_id(), C::spec_id(), D::spec_id(), E::spec_id(), F::spec_id(), G::spec_id(), H::spec_id(), I::spec_id(), J::spec_id()]
    }

    fn ids() -> (r: Vec<ComponentId>) {
        vec![A::id(), B::id(), C::id(), D::id(), E::id(), F::id(), G::id(), H::id(), I::id(), J::id()]
    }
}

impl<A: Component, B: Component, C: Component, D: Component, E: Component, F: Component, G: Component, H: Component, I: Component> ComponentSet for (A, B, C, D, E, F, G, H, I) {
    open spec fn spec_ids() -> Seq<ComponentId> {
        seq![A::spec_id(), B::spec_id(), C::spec_id(), D::spec_id(), E::spec_id(), F::spec_id(), G::spec_id(), H::spec_id(), I::spec_id()]
    }

    fn ids() -> (r: Vec<ComponentId>) {
        vec![A::id(), B::id(), C::id(), D::id(), E::id(), F::id(), G::id(), H::id(), I::id()]
    }
}

impl<A: Component, B: Component, C: Component, D: Component, E: Component, F: Component, G: Component, H: Component> ComponentSet for (A, B, C, D, E, F, G, H) {
    open spec fn spec_ids() -> Seq<ComponentId> {
        seq![A::spec_id(), B::spec_id(), C::spec_id(), D::spec_id(), E::spec_id(), F::spec_id(), G::spec_id(), H::spec_id()]
    }

    fn ids() -> (r: Vec<ComponentId>) {
        vec![A::id(), B::id(), C::id(), D::id(), E::id(), F::id(), G::id(), H::id()]
    }
}

impl<A: Component, B: Component, C: Component, D: Component, E: Component, F: Component, G: Component> ComponentSet for (A, B, C, D, E, F, G) {
    open spec fn spec_ids() -> Seq<ComponentId> {
        seq![A::spec_id(), B::spec_id(), C::spec_id(), D::spec_id(), E::spec_id(), F::spec_id(), G::spec_id()]
    }

    fn ids() -> (r: Vec<ComponentId>) {
        vec![A::id(), B::id(), C::id(), D::id(), E::id(), F::id(), G::id()]
    }
}

impl<A: Component, B: Component, C: Component, D: Component, E: Component, F: Component> ComponentSet for (A, B, C, D, E, F) {
    open spec fn spec_ids() -> Seq<ComponentId> {
        seq![A::spec_id(), B::spec_id(), C::spec_id(), D::spec_id(), E::spec_id(), F::spec_id()]
    }

    fn ids() -> (r: Vec<ComponentId>) {
        vec![A::id(), B::id(), C::id(), D::id(), E::id(), F::id()]
    }
}

impl<A: Component, B: Component, C: Component, D: Component, E: Component> ComponentSet for (A, B, C, D, E) {
    open spec fn spec_ids() -> Seq<ComponentId> {
        seq![A::spec_id(), B::spec_id(), C::spec_id(), D::spec_id(), E::spec_id()]
    }

    fn ids() -> (r: Vec<ComponentId>) {
        vec![A::id(), B::id(), C::id(), D::id(), E::id()]
    }
}

impl<A: Component, B: Component, C: Component, D: Component> ComponentSet for (A, B, C, D) {
    open spec fn spec_ids() -> Seq<ComponentId> {
        seq![A::spec_id(), B::spec_id(), C::spec_id(), D::spec_id()]
    }

    fn ids() -> (r: Vec<ComponentId>) {
        vec![A::id(), B::id(), C::id(), D::id()]
    }
}

impl<A: Component, B: Component, C: Component> ComponentSet for (A, B, C) {
    open spec fn spec_ids() -> Seq<ComponentId> {
        seq![A::spec_id(), B::spec_id(), C::spec_id()]
    }

    fn ids() -> (r: Vec<ComponentId>) {
        vec![A::id(), B::id(), C::id()]
    }
}

impl<A: Component, B: Component> ComponentSet for (A, B) {
    open spec fn spec_ids() -> Seq<ComponentId> {
        seq![A::spec_id(), B::spec_id()]
    }

    fn ids() -> (r: Vec<ComponentId>) {
        vec![A::id(), B::id()]
    }
}

impl<A: Component> ComponentSet for (A,) {
    open spec fn spec_ids() -> Seq<ComponentId> {
        seq![A::spec_id()]
    }

    fn ids() -> (r: Vec<ComponentId>) {
        vec![A::id()]
    }
}

impl ComponentSet for () {
    open spec fn spec_ids() -> Seq<ComponentId> {
        Seq::empty()
    }

    fn ids() -> (r: Vec<ComponentId>) {
        Vec::new()
    }
}

/// A type can be a component if it is aligned to 16 bytes at most and has 8192 bytes at most.
pub proof fn law_components_are_small<T: Component>(r: Result<(), Noncompliance>)
    requires
        call_ensures(assert_component_compliance::<T>, (), r),
    ensures
        r is Ok <==> vstd::layout::align_of::<T>() <= 16 && vstd::layout::size_of::<T>() <= 8192,
        r == Err::<(), Noncompliance>(Noncompliance::Alignment) <==> vstd::layout::align_of::<T>()
            > 16,
        r == Err::<(), Noncompliance>(Noncompliance::Size) <==> vstd::layout::align_of::<T>() <= 16
            && vstd::layout::size_of::<T>() > 8192,
{
    match r {
        Ok(done) => {
            assert(done == ());
        },
        Err(Noncompliance::Alignment) => {},
        Err(Noncompliance::Size) => {},
    }
}

/// The component that is found missing is the first of the list that there is no data of, and
/// none is found missing only if there is data of each.
pub proof fn law_the_first_missing_is_found<V>(
    tables: Map<ComponentId, ComponentOffsetTable<V>>,
    ids: Seq<ComponentId>,
    index: int,
)
    ensures
        first_missing(tables, ids, index) is None ==> forall|k: int|
            0 <= k < ids.len() ==> tables[#[trigger] ids[k]].entry(index) is Some,
        first_missing(tables, ids, index) matches Some(id) ==> exists|k: int|
            {
                &&& 0 <= k < ids.len()
                &&& #[trigger] ids[k] == id
                &&& tables[id].entry(index) is None
                &&& forall|j: int| 0 <= j < k ==> tables[#[trigger] ids[j]].entry(index) is Some
            },
    decreases ids.len(),
{
    if ids.len() > 0 {
        let rest = ids.drop_first();
        law_the_first_missing_is_found(tables, rest, index);
        assert(forall|k: int| 0 < k < ids.len() ==> #[trigger] ids[k] == rest[k - 1]);
        if tables[ids[0]].entry(index) is Some {
            if let Some(id) = first_missing(tables, ids, index) {
                let k = choose|k: int|
                    {
                        &&& 0 <= k < rest.len()
                        &&& #[trigger] rest[k] == id
                        &&& tables[id].entry(index) is None
                        &&& forall|j: int|
                            0 <= j < k ==> tables[#[trigger] rest[j]].entry(index) is Some
                    };
                assert(ids[k + 1] == id);
                assert forall|j: int| 0 <= j < k + 1 implies tables[#[trigger] ids[j]].entry(
                    index,
                ) is Some by {
                    if j > 0 {
                        assert(ids[j] == rest[j - 1]);
                    }
                }
            }
        }
    }
}

/// The dependencies of an entity are met just if each component that it has data of finds data of
/// each component that it depends on. If not, the error names one that is missing, and a component
/// that the entity has data of and that depends on it.
pub proof fn law_dependencies_are_those_of_the_data<C: CheckDependencies>(
    c: &C,
    e: Entity,
    r: Result<(), Unmet>,
)
    requires
        c.one_table_each(),
        call_ensures(C::assert_dependencies::<C>, (c, c, e), r),
    ensures
        r is Ok <==> forall|id: ComponentId, k: int|
            c.tables().contains_key(id) && c.tables()[id].entry(e.index()) is Some && 0 <= k
                < c.tables()[id].kind().dependencies.len() ==> c.tables()[#[trigger] c.tables()[id].kind().dependencies[k]].entry(
                e.index(),
            ) is Some,
        r matches Err(u) ==> {
            &&& c.tables()[u.missing].entry(e.index()) is None
            &&& c.tables().contains_key(u.required_by)
            &&& c.tables()[u.required_by].entry(e.index()) is Some
            &&& c.tables()[u.required_by].kind().dependencies.contains(u.missing)
        },
{
    let i = e.index();
    if r is Ok {
        assert forall|id: ComponentId, k: int|
            c.tables().contains_key(id) && c.tables()[id].entry(i) is Some && 0 <= k
                < c.tables()[id].kind().dependencies.len() implies c.tables()[#[trigger] c.tables()[id].kind().dependencies[k]].entry(
        i) is Some by {
            assert(has_entry(c.tables(), c.tables()[id].kind().dependencies[k], i));
        }
    } else {
        let u = r->Err_0;
        let deps = c.tables()[u.required_by].kind().dependencies;
        let k = choose|k: int| 0 <= k < deps.len() && deps[k] == u.missing;
        assert(c.tables()[c.tables()[u.required_by].kind().dependencies[k]].entry(i) is None);
    }
}

/// Clearing the tables for some entities removes what they hold for the entities' slots, in each
/// table, and leaves the rest.
pub proof fn law_all_tables_are_cleared<C: Components>(entities: &Vec<Entity>, id: ComponentId)
    ensures
        forall|c: &mut C| #[trigger]
            call_ensures(C::clear_components_for, (c, entities), ()) ==> {
                &&& final(c).tables().contains_key(id) == c.tables().contains_key(id)
                &&& c.tables().contains_key(id) ==> {
                    let before = c.tables()[id];
                    let after = final(c).tables()[id];
                    &&& after.kind() == before.kind()
                    &&& forall|k: int|
                        0 <= k < entities@.len() ==> {
                            &&& after.entry((#[trigger] entities@[k]).index()) is None
                            &&& after.unit(entities@[k].index()) is None
                        }
                    &&& forall|i: int|
                        (forall|k: int|
                            0 <= k < entities@.len() ==> (#[trigger] entities@[k]).index() != i)
                            ==> #[trigger] after.entry(i) == before.entry(i)
                    &&& forall|i: int|
                        (forall|k: int|
                            0 <= k < entities@.len() ==> (#[trigger] entities@[k]).index() != i)
                            ==> #[trigger] after.unit(i) == before.unit(i)
                }
            },
{
    assert forall|c: &mut C|
        #[trigger] call_ensures(C::clear_components_for, (c, entities), ())
            && c.tables().contains_key(id) implies forall|k: int|
        0 <= k < entities@.len() ==> {
            &&& final(c).tables()[id].entry((#[trigger] entities@[k]).index()) is None
            &&& final(c).tables()[id].unit(entities@[k].index()) is None
        } by {
        assert(final(c).tables().dom().contains(id));
        assert(cleared_for(c.tables()[id], final(c).tables()[id], entities@));
        assert forall|k: int| 0 <= k < entities@.len() implies {
            &&& final(c).tables()[id].entry((#[trigger] entities@[k]).index()) is None
            &&& final(c).tables()[id].unit(entities@[k].index()) is None
        } by {
            assert(offset_table::lists_slot(entities@, entities@[k].index()));
        }
    }
    assert forall|c: &mut C| #[trigger]
        call_ensures(C::clear_components_for, (c, entities), ()) implies final(
        c).tables().contains_key(id) == c.tables().contains_key(id) by {
        assert(final(c).tables().dom().contains(id) == c.tables().dom().contains(id));
    }
}

/// A set lists its components in order: those of the set without the last one, and the last one.
pub proof fn law_sets_list_their_components<
    A: Component,
    B: Component,
    C: Component,
    D: Component,
    E: Component,
    F: Component,
    G: Component,
    H: Component,
    I: Component,
    J: Component,
    K: Component,
    L: Component,
>()
    ensures
        <() as ComponentSet>::spec_ids().len() == 0,
        <A as ComponentSet>::spec_ids() == <(A,)>::spec_ids(),
        <(A,)>::spec_ids() == <()>::spec_ids().push(A::spec_id()),
        <(A, B)>::spec_ids() == <(A,)>::spec_ids().push(B::spec_id()),
        <(A, B, C)>::spec_ids() == <(A, B)>::spec_ids().push(C::spec_id()),
        <(A, B, C, D)>::spec_ids() == <(A, B, C)>::spec_ids().push(D::spec_id()),
        <(A, B, C, D, E)>::spec_ids() == <(A, B, C, D)>::spec_ids().push(E::spec_id()),
        <(A, B, C, D, E, F)>::spec_ids() == <(A, B, C, D, E)>::spec_ids().push(F::spec_id()),
        <(A, B, C, D, E, F, G)>::spec_ids() == <(A, B, C, D, E, F)>::spec_ids().push(G::spec_id()),
        <(A, B, C, D, E, F, G, H)>::spec_ids() == <(A, B, C, D, E, F, G)>::spec_ids().push(
            H::spec_id(),
        ),
        <(A, B, C, D, E, F, G, H, I)>::spec_ids() == <(A, B, C, D, E, F, G, H)>::spec_ids().push(
            I::spec_id(),
        ),
        <(A, B, C, D, E, F, G, H, I, J)>::spec_ids() == <(
            A,
            B,
            C,
            D,
            E,
            F,
            G,
            H,
            I,
        )>::spec_ids().push(J::spec_id()),
        <(A, B, C, D, E, F, G, H, I, J, K)>::spec_ids() == <(
            A,
            B,
            C,
            D,
            E,
            F,
            G,
            H,
            I,
            J,
        )>::spec_ids().push(K::spec_id()),
        <(A, B, C, D, E, F, G, H, I, J, K, L)>::spec_ids() == <(
            A,
            B,
            C,
            D,
            E,
            F,
            G,
            H,
            I,
            J,
            K,
        )>::spec_ids().push(L::spec_id()),
{
    assert(<(A,)>::spec_ids() =~= <()>::spec_ids().push(A::spec_id()));
    assert(<(A, B)>::spec_ids() =~= <(A,)>::spec_ids().push(B::spec_id()));
    assert(<(A, B, C)>::spec_ids() =~= <(A, B)>::spec_ids().push(C::spec_id()));
    assert(<(A, B, C, D)>::spec_ids() =~= <(A, B, C)>::spec_ids().push(D::spec_id()));
    assert(<(A, B, C, D, E)>::spec_ids() =~= <(A, B, C, D)>::spec_ids().push(E::spec_id()));
    assert(<(A, B, C, D, E, F)>::spec_ids() =~= <(A, B, C, D, E)>::spec_ids().push(F::spec_id()));
    assert(<(A, B, C, D, E, F, G)>::spec_ids() =~= <(A, B, C, D, E, F)>::spec_ids().push(
        G::spec_id(),
    ));
    assert(<(A, B, C, D, E, F, G, H)>::spec_ids() =~= <(A, B, C, D, E, F, G)>::spec_ids().push(
        H::spec_id(),
    ));
    assert(<(A, B, C, D, E, F, G, H, I)>::spec_ids() =~= <(
        A,
        B,
        C,
        D,
        E,
        F,
        G,
        H,
    )>::spec_ids().push(I::spec_id()));
    assert(<(A, B, C, D, E, F, G, H, I, J)>::spec_ids() =~= <(
        A,
        B,
        C,
        D,
        E,
        F,
        G,
        H,
        I,
    )>::spec_ids().push(J::spec_id()));
    assert(<(A, B, C, D, E, F, G, H, I, J, K)>::spec_ids() =~= <(
        A,
        B,
        C,
        D,
        E,
        F,
        G,
        H,
        I,
        J,
    )>::spec_ids().push(K::spec_id()));
    assert(<(A, B, C, D, E, F, G, H, I, J, K, L)>::spec_ids() =~= <(
        A,
        B,
        C,
        D,
        E,
        F,
        G,
        H,
        I,
        J,
        K,
    )>::spec_ids().push(L::spec_id()));
}

/// The dependencies of the component that was added last are checked first, in their order. Those of
/// the others are checked only if they are met.
pub proof fn law_newest_dependencies_come_first<P: CheckDependencies, T: Components<Value = P::Value>>(
    c: &ListEntry<ComponentOffsetTable<P::Value>, P>,
    rest: &P,
    top_level: &T,
    e: Entity,
    r: Result<(), Unmet>,
    r2: Result<(), Unmet>,
)
    requires
        *rest == c.rest(),
        call_ensures(
            <ListEntry<ComponentOffsetTable<P::Value>, P> as CheckDependencies>::assert_dependencies::<
                T,
            >,
            (c, top_level, e),
            r,
        ),
        call_ensures(P::assert_dependencies::<T>, (rest, top_level, e), r2),
    ensures
        ({
            let table = c.newest();
            let deps = table.kind().dependencies;
            let i = e.index();
            let met = table.entry(i) is None || forall|k: int|
                0 <= k < deps.len() ==> top_level.tables()[#[trigger] deps[k]].entry(i) is Some;
            &&& met ==> r == r2
            &&& !met ==> exists|k: int|
                {
                    &&& 0 <= k < deps.len()
                    &&& top_level.tables()[#[trigger] deps[k]].entry(i) is None
                    &&& forall|j: int|
                        0 <= j < k ==> top_level.tables()[#[trigger] deps[j]].entry(i) is Some
                    &&& r == Err::<(), Unmet>(
                        Unmet { missing: deps[k], required_by: table.component() },
                    )
                }
        }),
{
    let table = c.newest();
    let deps = table.kind().dependencies;
    let i = e.index();
    let missing = first_missing(top_level.tables(), deps, i);
    law_the_first_missing_is_found(top_level.tables(), deps, i);
    if table.entry(i) is Some && missing is Some {
        let id = missing->0;
        let k = choose|k: int|
            {
                &&& 0 <= k < deps.len()
                &&& #[trigger] deps[k] == id
                &&& top_level.tables()[id].entry(i) is None
                &&& forall|j: int|
                    0 <= j < k ==> top_level.tables()[#[trigger] deps[j]].entry(i) is Some
            };
        assert(top_level.tables()[deps[k]].entry(i) is None);
        assert(r == Err::<(), Unmet>(
            Unmet { missing: deps[k], required_by: table.component() },
        ));
    }
}

} // verus!
