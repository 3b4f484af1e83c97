//! Lists of components: first as mere types, and then as maps of component data.

use core::marker::PhantomData;
use vstd::prelude::*;
use vstd::rwlock::{RwLock, RwLockPredicate, WriteHandle};
use super::component::Component;
use super::component_map::ComponentMap;
use super::entity::Entity;
use super::offset_table::ComponentId;

verus! {

/// Non-empty case of a list entry.
pub struct Entry<T, P> {
    id: ComponentId,
    val: T,
    parent: P,
}

impl<T, P> Entry<T, P> {
    /// The component.
    pub closed spec fn spec_id(&self) -> ComponentId {
        self.id
    }

    /// What the list has for the component.
    pub closed spec fn spec_val(&self) -> T {
        self.val
    }

    /// The list without this entry.
    pub closed spec fn rest(&self) -> P {
        self.parent
    }
}

/// Empty case of a list entry.
pub struct Empty<V> {
    marker: PhantomData<V>,
}

impl<V> Empty<V> {
    /// The empty list.
    pub fn new() -> (r: Empty<V>)
        ensures
            r.ids() == Set::<ComponentId>::empty(),
            r.maps() == Map::<ComponentId, ComponentMap<V>>::empty(),
    {
        Empty { marker: PhantomData }
    }
}

/// A list of components where each entry is a zero-sized PhantomData.
/// This is used to signify which components a world will manage, without yet constructing
/// the maps themselves.
pub trait PhantomComponents: Sized {
    /// What the maps store.
    type Value;

    /// The components of the list.
    spec fn ids(&self) -> Set<ComponentId>;

    /// Push another component type onto this list, which must not be in it yet.
    fn push<T: Component<Value = Self::Value>>(self) -> (r: Entry<PhantomData<T>, Self>)
        requires
            !self.ids().contains(T::spec_id()),
        ensures
            r.rest() == self,
            r.spec_id() == T::spec_id(),
    ;

    /// Whether the list has the component.
    fn has<T: Component<Value = Self::Value>>(&self) -> (r: bool)
        ensures
            r == self.ids().contains(T::spec_id()),
    ;
}

impl<V> PhantomComponents for Empty<V> {
    type Value = V;

    open spec fn ids(&self) -> Set<ComponentId> {
        Set::empty()
    }

    fn push<T: Component<Value = V>>(self) -> (r: Entry<PhantomData<T>, Self>) {
        Entry { id: T::id(), val: PhantomData, parent: self }
    }

    fn has<T: Component<Value = V>>(&self) -> (r: bool) {
        false
    }
}

impl<C, P: PhantomComponents> PhantomComponents for Entry<PhantomData<C>, P> {
    type Value = P::Value;

    open spec fn ids(&self) -> Set<ComponentId> {
        self.rest().ids().insert(self.spec_id())
    }

    fn push<T: Component<Value = P::Value>>(self) -> (r: Entry<PhantomData<T>, Self>) {
        Entry { id: T::id(), val: PhantomData, parent: self }
    }

    fn has<T: Component<Value = P::Value>>(&self) -> (r: bool) {
        T::id() == self.id || self.parent.has::<T>()
    }
}

/// The map is well formed.
pub open spec fn map_wf<V>(map: ComponentMap<V>) -> bool {
    map.wf()
}

/// Each map is well formed.
pub open spec fn all_wf<V>(maps: Map<ComponentId, ComponentMap<V>>) -> bool {
    forall|id: ComponentId| #[trigger] maps.contains_key(id) ==> maps[id].wf()
}

/// No map has data.
pub open spec fn all_empty<V>(maps: Map<ComponentId, ComponentMap<V>>) -> bool {
    forall|id: ComponentId| #[trigger]
        maps.contains_key(id) ==> maps[id].contents() == Map::<Entity, V>::empty()
}

/// A list where each entry is a `ComponentMap`
pub trait Components: Sized {
    /// What the maps store.
    type Value;

    /// The maps by their components.
    spec fn maps(&self) -> Map<ComponentId, ComponentMap<Self::Value>>;

    /// Each map of the list is well formed.
    spec fn wf(&self) -> bool;

    /// Get a reference to the supplied component's map, which must be in this list.
    fn get(&self, id: ComponentId) -> (r: &ComponentMap<Self::Value>)
        requires
            self.maps().contains_key(id),
        ensures
            *r == self.maps()[id],
    ;

    /// Get a mutable reference to the supplied component's map, which must be in this
    /// list.
    fn get_mut(&mut self, id: ComponentId) -> (r: &mut ComponentMap<Self::Value>)
        requires
            old(self).maps().contains_key(id),
        ensures
            *r == old(self).maps()[id],
            final(self).maps() == old(self).maps().insert(id, *final(r)),
            old(self).wf() && map_wf(*final(r)) ==> final(self).wf(),
    ;
}

impl<V> Components for Empty<V> {
    type Value = V;

    open spec fn maps(&self) -> Map<ComponentId, ComponentMap<V>> {
        Map::empty()
    }

    open spec fn wf(&self) -> bool {
        true
    }

    fn get(&self, id: ComponentId) -> (r: &ComponentMap<V>) {
        assert(false);
        loop
            invariant
                false,
            decreases 0int,
        {
        }
    }

    fn get_mut(&mut self, id: ComponentId) -> (r: &mut ComponentMap<V>) {
        assert(false);
        loop
            invariant
                false,
            decreases 0int,
        {
        }
    }
}

impl<V, P: Components<Value = V>> Components for Entry<ComponentMap<V>, P> {
    type Value = V;

    open spec fn maps(&self) -> Map<ComponentId, ComponentMap<V>> {
        self.rest().maps().insert(self.spec_id(), self.spec_val())
    }

    open spec fn wf(&self) -> bool {
        self.rest().wf() && map_wf(self.spec_val())
    }

    fn get(&self, id: ComponentId) -> (r: &ComponentMap<V>) {
        if id == self.id {
            &self.val
        } else {
            self.parent.get(id)
        }
    }

    fn get_mut(&mut self, id: ComponentId) -> (r: &mut ComponentMap<V>) {
        if id == self.id {
            &mut self.val
        } else {
            self.parent.get_mut(id)
        }
    }
}

/// What holds of a map whenever nobody has the lock on it.
pub struct MapInvariant;

impl<V> RwLockPredicate<ComponentMap<V>> for MapInvariant {
    open spec fn inv(self, map: ComponentMap<V>) -> bool {
        map.wf()
    }
}

/// A map that one thread at a time can have.
pub type MapLock<V> = RwLock<ComponentMap<V>, MapInvariant>;

/// Whether the lock can have been made for the map: it is for `RwLock::new` to say.
pub open spec fn locked<V>(map: ComponentMap<V>, lock: MapLock<V>) -> bool {
    call_ensures(
        RwLock::<ComponentMap<V>, MapInvariant>::new,
        (map, Ghost(MapInvariant)),
        lock,
    )
}

/// Whether the map can have been taken out of the lock for good: it is for
/// `RwLock::into_inner` to say.
pub open spec fn unlocked<V>(lock: MapLock<V>, map: ComponentMap<V>) -> bool {
    call_ensures(RwLock::<ComponentMap<V>, MapInvariant>::into_inner, (lock,), map)
}

/// A map, held by the one thread that has the lock on it.
pub struct MapGuard<'a, V> {
    /// The map.
    pub map: ComponentMap<V>,
    /// The right to give it back.
    pub handle: WriteHandle<'a, ComponentMap<V>, MapInvariant>,
}

impl<'a, V> MapGuard<'a, V> {
    /// The lock that the map belongs to.
    pub open spec fn owner(&self) -> MapLock<V> {
        self.handle.rwlock()
    }

    /// Whether the lock can have handed out the map with the right to give it back: it is
    /// for `RwLock::acquire_write` to say.
    pub open spec fn acquired(&self, lock: MapLock<V>) -> bool {
        call_ensures(
            RwLock::<ComponentMap<V>, MapInvariant>::acquire_write,
            (&lock,),
            (self.map, self.handle),
        )
    }

    /// Gives the map back, as it is now, with `WriteHandle::release_write`. Until then nobody
    /// else can have it.
    pub fn release(self)
        requires
            self.map.wf(),
        ensures
            call_ensures(
                WriteHandle::<'a, ComponentMap<V>, MapInvariant>::release_write,
                (self.handle, self.map),
                (),
            ),
    {
        self.handle.release_write(self.map);
    }
}

/// A list where every entry is wrapped in a mutex.
pub trait MutexComponents: Sized {
    /// What the maps store.
    type Value;

    /// The locks by their components.
    spec fn locks(&self) -> Map<ComponentId, MapLock<Self::Value>>;

    /// Lock the mutex for a component, which must be in this list.
    fn lock(&self, id: ComponentId) -> (r: MapGuard<'_, Self::Value>)
        requires
            self.locks().contains_key(id),
        ensures
            r.owner() == self.locks()[id],
            r.map.wf(),
            r.acquired(self.locks()[id]),
    ;
}

impl<V> MutexComponents for Empty<V> {
    type Value = V;

    open spec fn locks(&self) -> Map<ComponentId, MapLock<V>> {
        Map::empty()
    }

    fn lock(&self, id: ComponentId) -> (r: MapGuard<'_, V>) {
        assert(false);
        loop
            invariant
                false,
            decreases 0int,
        {
        }
    }
}

impl<V, P: MutexComponents<Value = V>> MutexComponents for Entry<MapLock<V>, P> {
    type Value = V;

    open spec fn locks(&self) -> Map<ComponentId, MapLock<V>> {
        self.rest().locks().insert(self.spec_id(), self.spec_val())
    }

    fn lock(&self, id: ComponentId) -> (r: MapGuard<'_, V>) {
        if id == self.id {
            let (map, handle) = self.val.acquire_write();
            MapGuard { map, handle }
        } else {
            self.parent.lock(id)
        }
    }
}

/// Something that can be transformed into a type which implements `Components`.
pub trait IntoComponents: Sized {
    /// The list of maps.
    type Output: Components;

    /// The components of the list.
    spec fn components(&self) -> Set<ComponentId>;

    /// Whether the list has only the types of the components so far.
    spec fn is_phantom(&self) -> bool;

    /// Whether the map can be the one of a component: it is new, or was taken out of the
    /// component's mutex.
    spec fn yields(
        &self,
        id: ComponentId,
        map: ComponentMap<<Self::Output as Components>::Value>,
    ) -> bool;

    /// Makes a map for each component, or takes it out of its mutex.
    fn into_components(self) -> (r: Self::Output)
        ensures
            forall|id: ComponentId| #[trigger]
                r.maps().contains_key(id) ==> self.yields(id, r.maps()[id]),
            r.maps().dom() == self.components(),
            r.wf(),
            all_wf(r.maps()),
            self.is_phantom() ==> all_empty(r.maps()),
    ;
}

impl<V> IntoComponents for Empty<V> {
    type Output = Empty<V>;

    open spec fn components(&self) -> Set<ComponentId> {
        Set::empty()
    }

    open spec fn is_phantom(&self) -> bool {
        true
    }

    open spec fn yields(&self, id: ComponentId, map: ComponentMap<V>) -> bool {
        false
    }

    fn into_components(self) -> (r: Empty<V>) {
        self
    }
}

impl<C: Component, P: IntoComponents> IntoComponents for Entry<PhantomData<C>, P> where
    P::Output: Components<Value = C::Value>,
 {
    type Output = Entry<ComponentMap<C::Value>, P::Output>;

    open spec fn components(&self) -> Set<ComponentId> {
        self.rest().components().insert(self.spec_id())
    }

    open spec fn is_phantom(&self) -> bool {
        self.rest().is_phantom()
    }

    open spec fn yields(&self, id: ComponentId, map: ComponentMap<C::Value>) -> bool {
        if id == self.spec_id() {
            map.contents() == Map::<Entity, C::Value>::empty()
        } else {
            self.rest().yields(id, map)
        }
    }

    fn into_components(self) -> (r: Self::Output) {
        Entry { id: self.id, val: ComponentMap::new(), parent: self.parent.into_components() }
    }
}

impl<V, P: IntoComponents> IntoComponents for Entry<MapLock<V>, P> where
    P::Output: Components<Value = V>,
 {
    type Output = Entry<ComponentMap<V>, P::Output>;

    open spec fn components(&self) -> Set<ComponentId> {
        self.rest().components().insert(self.spec_id())
    }

    open spec fn is_phantom(&self) -> bool {
        false
    }

    open spec fn yields(&self, id: ComponentId, map: ComponentMap<V>) -> bool {
        if id == self.spec_id() {
            unlocked(self.spec_val(), map)
        } else {
            self.rest().yields(id, map)
        }
    }

    fn into_components(self) -> (r: Self::Output) {
        Entry {
            id: self.id,
            val: self.val.into_inner(),
            parent: self.parent.into_components(),
        }
    }
}

/// Something which can be transformed into a type which implements `MutexComponents`.
pub trait IntoMutexComponents: Components {
    /// The list of locks.
    type Output: MutexComponents<Value = Self::Value> + IntoComponents;

    /// Wraps each map in a mutex, which it can be taken out of.
    fn into_mutex_components(self) -> (r: Self::Output)
        requires
            self.wf(),
        ensures
            r.locks().dom() == self.maps().dom(),
            r.components() == self.maps().dom(),
            forall|id: ComponentId| #[trigger]
                self.maps().contains_key(id) ==> locked(self.maps()[id], r.locks()[id]),
    ;
}

impl<V> IntoMutexComponents for Empty<V> {
    type Output = Empty<V>;

    fn into_mutex_components(self) -> (r: Empty<V>) {
        self
    }
}

impl<V, P: IntoMutexComponents + Components<Value = V>> IntoMutexComponents for Entry<
    ComponentMap<V>,
    P,
> where <P::Output as IntoComponents>::Output: Components<Value = V> {
    type Output = Entry<MapLock<V>, P::Output>;

    fn into_mutex_components(self) -> (r: Self::Output) {
        Entry {
            id: self.id,
            val: RwLock::new(self.val, Ghost(MapInvariant)),
            parent: self.parent.into_mutex_components(),
        }
    }
}

/// A type that can be roundtripped into a MutexComponents and back again. The way there
/// and back keeps the components; what their maps hold then is what the holders of the
/// locks have left in them.
pub trait RoundTrip: IntoMutexComponents {

}

impl<T: IntoMutexComponents> RoundTrip for T where
    <T as IntoMutexComponents>::Output: IntoComponents<Output = T>,
 {

}

/// Pushing a component adds it to the list, and leaves the others in it.
pub proof fn law_pushing_adds_the_component<
    P: PhantomComponents,
    T: Component<Value = P::Value>,
>(list: P, r: Entry<PhantomData<T>, P>, id: ComponentId)
    requires
        call_ensures(P::push::<T>, (list,), r),
    ensures
        r.ids().contains(id) <==> list.ids().contains(id) || id == T::spec_id(),
{
}

} // verus!
