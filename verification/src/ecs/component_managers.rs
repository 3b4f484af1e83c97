//! Looking up the managers of component data.

use core::marker::PhantomData;
use vstd::prelude::*;
use super::offset_table::ComponentId;

verus! {

/// The first place of a component in a list, counted from one; the length of the list
/// if it is not there.
pub open spec fn first_place(ids: Seq<ComponentId>, id: ComponentId) -> Result<int, int>
    decreases ids.len(),
{
    if ids.len() == 0 {
        Err(0)
    } else {
        match first_place(ids.drop_last(), id) {
            Ok(depth) => Ok(depth),
            Err(_) => if ids.last() == id {
                Ok(ids.len() as int)
            } else {
                Err(ids.len() as int)
            },
        }
    }
}

/// Something that can look up managers.
///
/// In practice, this is almost always going to be a `ComponentManagers`,
/// but this trait exists as a way to to facilitate recursive generic type
/// declarations.
pub trait ManagerLookup: Sized {
    /// What manages the data of a component.
    type Manager;

    /// The components, the one added first in front.
    spec fn ids(&self) -> Seq<ComponentId>;

    /// The managers by their components.
    spec fn managers(&self) -> Map<ComponentId, Self::Manager>;

    /// Returns a unique depth of this component, or how many components there are.
    /// While this seems relatively useless at first glance,
    /// it can be used to give each component a unique id in the world.
    fn depth_of(&self, id: ComponentId) -> (r: Result<usize, usize>)
        requires
            self.ids().len() <= usize::MAX,
        ensures
            match r {
                Ok(depth) => first_place(self.ids(), id) == Ok::<int, int>(depth as int),
                Err(count) => first_place(self.ids(), id) == Err::<int, int>(count as int),
            },
    ;

    /// Try to get a reference to the manager of a component.
    fn lookup(&self, id: ComponentId) -> (r: Option<&Self::Manager>)
        ensures
            match r {
                Some(m) => self.managers().contains_key(id) && *m == self.managers()[id],
                None => !self.managers().contains_key(id),
            },
    ;

    /// Try to get a mutable reference to the manager of a component.
    fn lookup_mut(&mut self, id: ComponentId) -> (r: Option<&mut Self::Manager>)
        ensures
            final(self).ids() == old(self).ids(),
            match r {
                Some(m) => {
                    &&& old(self).managers().contains_key(id)
                    &&& *m == old(self).managers()[id]
                    &&& final(self).managers() == old(self).managers().insert(id, *final(m))
                },
                None => {
                    &&& !old(self).managers().contains_key(id)
                    &&& final(self).managers() == old(self).managers()
                },
            },
    ;

    /// Adds a manager on to this manager lookup
    fn and(self, id: ComponentId, manager: Self::Manager) -> (r: ComponentManagers<
        Self,
        Self::Manager,
    >)
        ensures
            r.rest() == self,
            r.top_id() == id,
            r.top() == manager,
    {
        ComponentManagers { nested: self, id, top_level: manager }
    }
}

/// No managers.
pub struct NoManagers<M> {
    marker: PhantomData<M>,
}

impl<M> NoManagers<M> {
    /// No managers.
    pub fn new() -> (r: NoManagers<M>)
        ensures
            r.ids() == Seq::<ComponentId>::empty(),
            r.managers() == Map::<ComponentId, M>::empty(),
    {
        NoManagers { marker: PhantomData }
    }
}

impl<M> ManagerLookup for NoManagers<M> {
    type Manager = M;

    open spec fn ids(&self) -> Seq<ComponentId> {
        Seq::empty()
    }

    open spec fn managers(&self) -> Map<ComponentId, M> {
        Map::empty()
    }

    fn depth_of(&self, id: ComponentId) -> (r: Result<usize, usize>) {
        Err(0)
    }

    fn lookup(&self, id: ComponentId) -> (r: Option<&M>) {
        None
    }

    fn lookup_mut(&mut self, id: ComponentId) -> (r: Option<&mut M>) {
        None
    }
}

/// A conglomeration of component managers.
pub struct ComponentManagers<L, M> {
    nested: L,
    id: ComponentId,
    top_level: M,
}

impl<L, M> ComponentManagers<L, M> {
    /// The managers that were there before.
    pub closed spec fn rest(&self) -> L {
        self.nested
    }

    /// The component that was added last.
    pub closed spec fn top_id(&self) -> ComponentId {
        self.id
    }

    /// The manager that was added last.
    pub closed spec fn top(&self) -> M {
        self.top_level
    }
}

impl<M> ComponentManagers<NoManagers<M>, M> {
    /// A single manager.
    pub fn new(id: ComponentId, manager: M) -> (r: Self)
        ensures
            r.ids() == seq![id],
            r.managers() == Map::<ComponentId, M>::empty().insert(id, manager),
    {
        let r = NoManagers::new().and(id, manager);
        assert(r.ids() =~= seq![id]);
        r
    }
}

impl<L: ManagerLookup> ManagerLookup for ComponentManagers<L, L::Manager> {
    type Manager = L::Manager;

    open spec fn ids(&self) -> Seq<ComponentId> {
        self.rest().ids().push(self.top_id())
    }

    open spec fn managers(&self) -> Map<ComponentId, L::Manager> {
        self.rest().managers().insert(self.top_id(), self.top())
    }

    fn depth_of(&self, id: ComponentId) -> (r: Result<usize, usize>) {
        proof {
            assert(self.ids().drop_last() =~= self.nested.ids());
            lemma_first_place(self.nested.ids(), id);
        }
        match self.nested.depth_of(id) {
            Ok(depth) => Ok(depth),
            Err(acc) => if id == self.id {
                Ok(acc + 1)
            } else {
                Err(acc + 1)
            },
        }
    }

    fn lookup(&self, id: ComponentId) -> (r: Option<&L::Manager>) {
        if id == self.id {
            Some(&self.top_level)
        } else {
            self.nested.lookup(id)
        }
    }

    fn lookup_mut(&mut self, id: ComponentId) -> (r: Option<&mut L::Manager>) {
        if id == self.id {
            Some(&mut self.top_level)
        } else {
            self.nested.lookup_mut(id)
        }
    }
}

// a component that is not there has the length of the list.
proof fn lemma_first_place(ids: Seq<ComponentId>, id: ComponentId)
    ensures
        match first_place(ids, id) {
            Ok(depth) => 1 <= depth <= ids.len() && ids[depth - 1] == id,
            Err(count) => count == ids.len() && !ids.contains(id),
        },
    decreases ids.len(),
{
    if ids.len() > 0 {
        let rest = ids.drop_last();
        lemma_first_place(rest, id);
        if first_place(ids, id) is Err && ids.contains(id) {
            let k = choose|k: int| 0 <= k < ids.len() && ids[k] == id;
            assert(rest[k] == id);
            assert(rest.contains(id));
        }
    }
}

/// Different components have different depths.
pub proof fn law_depths_are_unique(ids: Seq<ComponentId>, a: ComponentId, b: ComponentId)
    requires
        ids.contains(a),
        ids.contains(b),
        a != b,
    ensures
        first_place(ids, a) is Ok,
        first_place(ids, b) is Ok,
        first_place(ids, a) != first_place(ids, b),
{
    lemma_first_place(ids, a);
    lemma_first_place(ids, b);
}

// no place before the first is that of the component.
proof fn lemma_none_before(ids: Seq<ComponentId>, id: ComponentId, j: int)
    requires
        first_place(ids, id) is Ok,
        0 <= j < first_place(ids, id)->Ok_0 - 1,
    ensures
        j < ids.len(),
        ids[j] != id,
    decreases ids.len(),
{
    let rest = ids.drop_last();
    lemma_first_place(ids, id);
    lemma_first_place(rest, id);
    if first_place(rest, id) is Ok {
        lemma_none_before(rest, id, j);
        assert(rest[j] == ids[j]);
    } else {
        assert(rest[j] == ids[j]);
        assert(rest.contains(rest[j]));
    }
}

/// The depth of a component is the place, counted from one, where it was first added. For a
/// component that was not added the number of components is given.
pub proof fn law_depths_count_from_the_first<L: ManagerLookup>(
    lookup: &L,
    id: ComponentId,
    r: Result<usize, usize>,
)
    requires
        call_ensures(L::depth_of, (lookup, id), r),
    ensures
        r is Ok <==> lookup.ids().contains(id),
        r matches Ok(depth) ==> {
            &&& 1 <= depth <= lookup.ids().len()
            &&& lookup.ids()[depth - 1] == id
            &&& forall|j: int| 0 <= j < depth - 1 ==> #[trigger] lookup.ids()[j] != id
        },
        r matches Err(count) ==> count == lookup.ids().len(),
{
    let ids = lookup.ids();
    lemma_first_place(ids, id);
    if let Ok(depth) = r {
        assert(ids.contains(ids[depth - 1]));
        assert forall|j: int| 0 <= j < depth - 1 implies #[trigger] ids[j] != id by {
            lemma_none_before(ids, id, j);
        }
    }
}

/// A manager that is added is found for its component. For the others, what was there before is
/// found.
pub proof fn law_added_managers_are_found<L: ManagerLookup>(
    before: L,
    id: ComponentId,
    manager: L::Manager,
    after: ComponentManagers<L, L::Manager>,
    x: ComponentId,
    found: Option<&L::Manager>,
    found_before: Option<&L::Manager>,
)
    requires
        call_ensures(L::and, (before, id, manager), after),
        call_ensures(<ComponentManagers<L, L::Manager> as ManagerLookup>::lookup, (&after, x), found),
        call_ensures(L::lookup, (&before, x), found_before),
    ensures
        x == id ==> found is Some && *(found->0) == manager,
        x != id ==> (found is Some <==> found_before is Some),
        x != id && found is Some ==> *(found->0) == *(found_before->0),
        after.ids() == before.ids().push(id),
{
}

} // verus!
