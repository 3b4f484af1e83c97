//! The state of a world: its entities, and the data of their components.

use vstd::prelude::*;
use super::LARGE_SIZE;
use super::blob::Blob;
use super::block::{BlockHandle, Granularity, Offset, SlotError};
use super::block;
use super::component::Components;
use super::component;
use super::entity::{Entity, EntityManager, MIN_UNUSED};
use super::entity;
use super::offset_table::{ComponentId, ComponentOffsetTable};
use super::offset_table;
use super::placement;
use super::slots;
use super::slots::Slot;
use crate::memory::allocator::{AllocError, Allocator};
use crate::memory::arith;
use crate::memory::collections::raw_vec;
use crate::memory::collections::vector::Vector;
use crate::memory::collections::vector;

verus! {

/// Each living entity owns a block of its own, and each block is owned.
pub open spec fn blocks_owned<V>(
    living: Map<Entity, Offset>,
    live: Map<Offset, BlockHandle<V>>,
) -> bool {
    &&& forall|e: Entity| #[trigger]
        living.contains_key(e) ==> {
            &&& live.contains_key(living[e])
            &&& live[living[e]].owner() == Some(e)
        }
    &&& forall|o: Offset| #[trigger]
        live.contains_key(o) ==> {
            &&& live[o].owner() is Some
            &&& living.contains_key(live[o].owner()->0)
            &&& living[live[o].owner()->0] == o
        }
}

/// Of each component without a size, the table keeps a value for the entity in
/// the given slot just if the entity has the component.
pub open spec fn units_placed<V>(
    tables: Map<ComponentId, ComponentOffsetTable<V>>,
    index: int,
) -> bool {
    forall|id: ComponentId| #[trigger]
        tables.contains_key(id) && tables[id].kind().size == 0 ==> (tables[id].entry(index) is Some
            <==> tables[id].unit(index) is Some)
}

/// The data of each living entity is in its block.
pub open spec fn data_in_blocks<V>(
    tables: Map<ComponentId, ComponentOffsetTable<V>>,
    living: Map<Entity, Offset>,
    live: Map<Offset, BlockHandle<V>>,
) -> bool {
    forall|e: Entity| #[trigger]
        living.contains_key(e) ==> {
            &&& placement::data_placed(tables, e.index(), live[living[e]])
            &&& units_placed(tables, e.index())
        }
}

/// The tables hold nothing for slots that were never used, nor for those that
/// wait for reuse, but for the ones of the entities that died last.
pub open spec fn strays_listed<V>(
    tables: Map<ComponentId, ComponentOffsetTable<V>>,
    slot_count: nat,
    waiting: Seq<usize>,
    dead: Seq<Entity>,
) -> bool {
    forall|id: ComponentId, i: int|
        tables.contains_key(id) && (#[trigger] tables[id].entry(i) is Some || tables[id].unit(
            i,
        ) is Some) ==> {
            &&& 0 <= i < slot_count
            &&& waiting.contains(i as usize) ==> offset_table::lists_slot(dead, i)
        }
}

/// The entities that died last are in the slots that will be reused last.
pub open spec fn dead_wait(waiting: Seq<usize>, dead: Seq<Entity>) -> bool {
    &&& dead.len() <= MIN_UNUSED
    &&& dead.len() <= waiting.len()
    &&& forall|k: int|
        0 <= k < dead.len() ==> (#[trigger] dead[k]).index() == waiting[waiting.len() - dead.len()
            + k]
}

/// Each component has a table of its own, and fits in a block.
pub open spec fn tables_ok<V>(tables: Map<ComponentId, ComponentOffsetTable<V>>) -> bool {
    forall|id: ComponentId| #[trigger]
        tables.contains_key(id) ==> {
            &&& tables[id].component() == id
            &&& 0 <= tables[id].kind().size <= LARGE_SIZE
        }
}

/// Both lists of tables are for the same components.
pub open spec fn same_kinds<V>(
    before: Map<ComponentId, ComponentOffsetTable<V>>,
    after: Map<ComponentId, ComponentOffsetTable<V>>,
) -> bool {
    &&& after.dom() == before.dom()
    &&& forall|id: ComponentId| #[trigger]
        after.contains_key(id) ==> after[id].kind() == before[id].kind()
}

/// The value of a component of an entity.
pub open spec fn value_of<V>(
    tables: Map<ComponentId, ComponentOffsetTable<V>>,
    living: Map<Entity, Offset>,
    live: Map<Offset, BlockHandle<V>>,
    e: Entity,
    id: ComponentId,
) -> Option<V> {
    if !living.contains_key(e) || !tables.contains_key(id) || tables[id].entry(e.index()) is None {
        None
    } else if tables[id].kind().size == 0 {
        tables[id].unit(e.index())
    } else {
        Some(live[living[e]].contents()[tables[id].entry(e.index())->0 as int])
    }
}

// a table and the block of one entity change, and nothing else does.
proof fn lemma_change<V>(
    tables: Map<ComponentId, ComponentOffsetTable<V>>,
    tables2: Map<ComponentId, ComponentOffsetTable<V>>,
    em: EntityManager,
    em2: EntityManager,
    live: Map<Offset, BlockHandle<V>>,
    live2: Map<Offset, BlockHandle<V>>,
    e: Entity,
    id: ComponentId,
)
    requires
        em.wf(),
        tables_ok(tables),
        blocks_owned(em.living(), live),
        data_in_blocks(tables, em.living(), live),
        em.living().contains_key(e),
        tables.contains_key(id),
        placement::retabled(tables, tables2, id, e.index()),
        em2.living() == em.living().insert(e, em2.living()[e]),
        !live.contains_key(em2.living()[e]) || em2.living()[e] == em.living()[e],
        live2 == live.remove(em.living()[e]).insert(
            em2.living()[e],
            live2[em2.living()[e]],
        ),
        live2[em2.living()[e]].owner() == Some(e),
        placement::data_placed(tables2, e.index(), live2[em2.living()[e]]),
        units_placed(tables2, e.index()),
        forall|i: ComponentId, off: int|
            i != id && #[trigger] placement::sits_at(tables, e.index(), i, off)
                ==> live2[em2.living()[e]].contents()[off]
                == live[em.living()[e]].contents()[off],
    ensures
        em2.living().dom() == em.living().dom(),
        tables_ok(tables2),
        blocks_owned(em2.living(), live2),
        data_in_blocks(tables2, em2.living(), live2),
        forall|x: Entity, i: ComponentId|
            x != e || i != id ==> #[trigger] value_of(tables2, em2.living(), live2, x, i)
                == value_of(tables, em.living(), live, x, i),
{
    let living = em.living();
    let living2 = em2.living();
    assert(living2.dom() =~= living.dom());
    assert forall|x: Entity| x != e && #[trigger] living.contains_key(x) implies {
        &&& living2[x] == living[x]
        &&& living[x] != living[e]
        &&& living[x] != living2[e]
        &&& live2[living[x]] == live[living[x]]
        &&& x.index() != e.index()
    } by {
        if x.index() == e.index() {
            em.law_one_entity_per_slot(x, e);
        }
        assert(live[living[x]].owner() == Some(x));
        assert(live[living[e]].owner() == Some(e));
    }
    assert forall|o: Offset| #[trigger] live2.contains_key(o) implies {
        &&& live2[o].owner() is Some
        &&& living2.contains_key(live2[o].owner()->0)
        &&& living2[live2[o].owner()->0] == o
    } by {
        if o != living2[e] {
            assert(live.contains_key(o));
            assert(live[o].owner()->0 != e);
        }
    }
    assert forall|x: Entity| #[trigger] living2.contains_key(x) implies {
        &&& placement::data_placed(tables2, x.index(), live2[living2[x]])
        &&& units_placed(tables2, x.index())
    } by {
        if x != e {
            assert(living.contains_key(x));
            placement::lemma_placed_elsewhere(
                tables,
                tables2,
                id,
                e.index(),
                x.index(),
                live[living[x]],
            );
            assert forall|i: ComponentId| #[trigger]
                tables2.contains_key(i) && tables2[i].kind().size == 0 implies (tables2[i].entry(
                x.index(),
            ) is Some <==> tables2[i].unit(x.index()) is Some) by {
                assert(tables.contains_key(i));
                assert(tables2[i].entry(x.index()) == tables[i].entry(x.index()));
            }
        }
    }
    assert forall|x: Entity, i: ComponentId| x != e || i != id implies #[trigger] value_of(
        tables2,
        living2,
        live2,
        x,
        i,
    ) == value_of(tables, living, live, x, i) by {
        if living.contains_key(x) && tables.contains_key(i) {
            assert(tables2.contains_key(i));
            assert(tables2[i].entry(x.index()) == tables[i].entry(x.index()));
            if x == e && tables[i].entry(e.index()) is Some && tables[i].kind().size > 0 {
                assert(placement::sits_at(
                    tables,
                    e.index(),
                    i,
                    tables[i].entry(e.index())->0 as int,
                ));
            }
        }
    }
}

// what the tables hold for the slot of a living entity is no stray.
proof fn lemma_change_strays<V>(
    tables: Map<ComponentId, ComponentOffsetTable<V>>,
    tables2: Map<ComponentId, ComponentOffsetTable<V>>,
    em: EntityManager,
    dead: Seq<Entity>,
    e: Entity,
    id: ComponentId,
)
    requires
        em.wf(),
        strays_listed(tables, em.slots(), em.waiting(), dead),
        em.living().contains_key(e),
        tables.contains_key(id),
        placement::retabled(tables, tables2, id, e.index()),
    ensures
        strays_listed(tables2, em.slots(), em.waiting(), dead),
{
    em.lemma_waiting();
    assert forall|i: ComponentId, k: int|
        tables2.contains_key(i) && (#[trigger] tables2[i].entry(k) is Some || tables2[i].unit(
            k,
        ) is Some) implies {
        &&& 0 <= k < em.slots()
        &&& em.waiting().contains(k as usize) ==> offset_table::lists_slot(dead, k)
    } by {
        if i != id || k != e.index() {
            assert(tables.contains_key(i));
            assert(tables2[i].entry(k) == tables[i].entry(k));
        }
    }
}

// an entity is created in a slot that no table holds anything for.
proof fn lemma_spawn<V>(
    tables: Map<ComponentId, ComponentOffsetTable<V>>,
    em: EntityManager,
    em2: EntityManager,
    live: Map<Offset, BlockHandle<V>>,
    live2: Map<Offset, BlockHandle<V>>,
    dead: Seq<Entity>,
    e: Entity,
    o: Offset,
)
    requires
        em.wf(),
        em2.wf(),
        blocks_owned(em.living(), live),
        data_in_blocks(tables, em.living(), live),
        strays_listed(tables, em.slots(), em.waiting(), dead),
        dead_wait(em.waiting(), dead),
        !em.living().contains_key(e),
        em2.living() == em.living().insert(e, o),
        !live.contains_key(o),
        live2 == live.insert(o, live2[o]),
        live2[o].owner() == Some(e),
        live2[o].contents() == Map::<int, V>::empty(),
        if em.waiting().len() <= MIN_UNUSED {
            &&& e.index() == em.slots()
            &&& em2.slots() == em.slots() + 1
            &&& em2.waiting() == em.waiting()
        } else {
            &&& e.index() == em.waiting()[0]
            &&& em2.slots() == em.slots()
            &&& em2.waiting() == em.waiting().drop_first()
        },
    ensures
        blocks_owned(em2.living(), live2),
        data_in_blocks(tables, em2.living(), live2),
        strays_listed(tables, em2.slots(), em2.waiting(), dead),
        dead_wait(em2.waiting(), dead),
        forall|x: Entity, i: ComponentId| #[trigger]
            value_of(tables, em2.living(), live2, x, i) == if x == e {
                None
            } else {
                value_of(tables, em.living(), live, x, i)
            },
{
    let waiting = em.waiting();
    em.lemma_waiting();
    em2.lemma_waiting();
    assert forall|id: ComponentId| #[trigger] tables.contains_key(id) implies tables[id].entry(
        e.index(),
    ) is None && tables[id].unit(e.index()) is None by {
        if tables[id].entry(e.index()) is Some || tables[id].unit(e.index()) is Some {
            assert(waiting.len() > MIN_UNUSED);
            assert(waiting.contains(waiting[0]));
            assert(offset_table::lists_slot(dead, e.index()));
            let k = choose|k: int|
                0 <= k < dead.len() && (#[trigger] dead[k]).index() == e.index();
            assert(waiting[waiting.len() - dead.len() + k] == waiting[0]);
            assert(false);
        }
    }
    assert forall|id: ComponentId, i: int|
        tables.contains_key(id) && (#[trigger] tables[id].entry(i) is Some || tables[id].unit(
            i,
        ) is Some) implies {
        &&& 0 <= i < em2.slots()
        &&& em2.waiting().contains(i as usize) ==> offset_table::lists_slot(dead, i)
    } by {
        if em2.waiting().contains(i as usize) {
            let k = choose|k: int| 0 <= k < em2.waiting().len() && em2.waiting()[k] == i as usize;
            if waiting.len() > MIN_UNUSED {
                assert(waiting[k + 1] == i as usize);
            }
            assert(waiting.contains(i as usize));
        }
    }
    assert(dead_wait(em2.waiting(), dead)) by {
        assert forall|k: int| 0 <= k < dead.len() implies (#[trigger] dead[k]).index()
            == em2.waiting()[em2.waiting().len() - dead.len() + k] by {
        }
    }
    assert forall|x: Entity| x != e && #[trigger] em.living().contains_key(x) implies live2[
    em2.living()[x]] == live[em.living()[x]] by {
    }
    assert forall|x: Entity| #[trigger] em2.living().contains_key(x) implies {
        &&& placement::data_placed(tables, x.index(), live2[em2.living()[x]])
        &&& units_placed(tables, x.index())
    } by {
        if x != e {
            assert(em.living().contains_key(x));
        }
    }
    assert forall|x: Entity, i: ComponentId| #[trigger]
        value_of(tables, em2.living(), live2, x, i) == if x == e {
            None
        } else {
            value_of(tables, em.living(), live, x, i)
        } by {
        if x != e && em.living().contains_key(x) {
        }
    }
}

// an entity dies, and its block is freed.
proof fn lemma_death_blocks<V>(
    tables: Map<ComponentId, ComponentOffsetTable<V>>,
    living: Map<Entity, Offset>,
    live: Map<Offset, BlockHandle<V>>,
    e: Entity,
)
    requires
        blocks_owned(living, live),
        data_in_blocks(tables, living, live),
        living.contains_key(e),
    ensures
        blocks_owned(living.remove(e), live.remove(living[e])),
        data_in_blocks(tables, living.remove(e), live.remove(living[e])),
        forall|x: Entity, i: ComponentId| #[trigger]
            value_of(tables, living.remove(e), live.remove(living[e]), x, i) == if x == e {
                None
            } else {
                value_of(tables, living, live, x, i)
            },
{
    let living2 = living.remove(e);
    let live2 = live.remove(living[e]);
    assert forall|x: Entity| #[trigger] living2.contains_key(x) implies {
        &&& living.contains_key(x)
        &&& live2.contains_key(living[x])
        &&& live2[living2[x]] == live[living[x]]
    } by {
        assert(living.contains_key(x));
        assert(live[living[x]].owner() == Some(x));
        assert(live[living[e]].owner() == Some(e));
    }
    assert forall|o: Offset| #[trigger] live2.contains_key(o) implies {
        &&& live2[o].owner() is Some
        &&& living2.contains_key(live2[o].owner()->0)
        &&& living2[live2[o].owner()->0] == o
    } by {
        assert(live.contains_key(o));
    }
    assert forall|x: Entity, i: ComponentId| #[trigger]
        value_of(tables, living2, live2, x, i) == if x == e {
            None
        } else {
            value_of(tables, living, live, x, i)
        } by {
        if living2.contains_key(x) {
        }
    }
}

// the slot of an entity that dies waits for reuse.
proof fn lemma_death_waits<V>(
    tables: Map<ComponentId, ComponentOffsetTable<V>>,
    slot_count: nat,
    waiting: Seq<usize>,
    dead: Seq<Entity>,
    e: Entity,
)
    requires
        strays_listed(tables, slot_count, waiting, dead),
        dead_wait(waiting, dead),
        0 <= e.index() < slot_count <= entity::MAX_ENTITIES,
    ensures
        strays_listed(tables, slot_count, waiting.push(e.index() as usize), dead.push(e)),
        dead.len() < MIN_UNUSED ==> dead_wait(waiting.push(e.index() as usize), dead.push(e)),
        forall|k: int|
            0 <= k <= dead.len() ==> waiting.push(e.index() as usize).contains(
                (#[trigger] dead.push(e)[k]).index() as usize,
            ),
{
    let waiting2 = waiting.push(e.index() as usize);
    let dead2 = dead.push(e);
    assert(dead2[dead.len() as int] == e);
    assert forall|id: ComponentId, i: int|
        tables.contains_key(id) && (#[trigger] tables[id].entry(i) is Some || tables[id].unit(
            i,
        ) is Some) implies {
        &&& 0 <= i < slot_count
        &&& waiting2.contains(i as usize) ==> offset_table::lists_slot(dead2, i)
    } by {
        if waiting2.contains(i as usize) {
            let k = choose|k: int| 0 <= k < waiting2.len() && waiting2[k] == i as usize;
            if k < waiting.len() {
                assert(waiting[k] == i as usize);
                assert(waiting.contains(i as usize));
                let d = choose|d: int| 0 <= d < dead.len() && (#[trigger] dead[d]).index() == i;
                assert(dead2[d].index() == i);
            }
        }
    }
    assert forall|k: int| 0 <= k < dead2.len() implies (#[trigger] dead2[k]).index()
        == waiting2[waiting2.len() - dead2.len() + k] by {
        if k < dead.len() {
            assert(dead2[k] == dead[k]);
        }
    }
    assert forall|k: int| 0 <= k <= dead.len() implies waiting2.contains(
        (#[trigger] dead.push(e)[k]).index() as usize,
    ) by {
        let at = waiting2.len() - dead2.len() + k;
        assert(waiting2[at] == dead2[k].index());
    }
}

// what the tables held for the slots of the dead is cleared.
proof fn lemma_clear<V>(
    tables: Map<ComponentId, ComponentOffsetTable<V>>,
    tables2: Map<ComponentId, ComponentOffsetTable<V>>,
    em: EntityManager,
    live: Map<Offset, BlockHandle<V>>,
    dead: Seq<Entity>,
)
    requires
        em.wf(),
        tables_ok(tables),
        data_in_blocks(tables, em.living(), live),
        strays_listed(tables, em.slots(), em.waiting(), dead),
        forall|k: int| 0 <= k < dead.len() ==> em.waiting().contains((#[trigger] dead[k]).index() as usize),
        tables2.dom() == tables.dom(),
        forall|id: ComponentId| #[trigger]
            tables2.contains_key(id) ==> component::cleared_for(tables[id], tables2[id], dead),
    ensures
        tables_ok(tables2),
        data_in_blocks(tables2, em.living(), live),
        strays_listed(tables2, em.slots(), em.waiting(), Seq::<Entity>::empty()),
        forall|x: Entity, i: ComponentId| #[trigger]
            value_of(tables2, em.living(), live, x, i) == value_of(
                tables,
                em.living(),
                live,
                x,
                i,
            ),
{
    em.lemma_waiting();
    assert forall|x: Entity| #[trigger] em.living().contains_key(x) implies !offset_table::lists_slot(
        dead,
        x.index(),
    ) by {
        if offset_table::lists_slot(dead, x.index()) {
            let k = choose|k: int|
                0 <= k < dead.len() && (#[trigger] dead[k]).index() == x.index();
            assert(em.waiting().contains(dead[k].index() as usize));
        }
    }
    assert forall|x: Entity, id: ComponentId|
        em.living().contains_key(x) && tables.contains_key(id) implies {
        &&& #[trigger] tables2[id].entry(x.index()) == tables[id].entry(x.index())
        &&& tables2[id].unit(x.index()) == tables[id].unit(x.index())
    } by {
        assert(tables2.contains_key(id));
    }
    assert forall|id: ComponentId| #[trigger] tables2.contains_key(id) implies tables.contains_key(
        id,
    ) && tables2[id].kind() == tables[id].kind() && tables2[id].component()
        == tables[id].component() by {
    }
    assert forall|x: Entity| #[trigger] em.living().contains_key(x) implies {
        &&& placement::data_placed(tables2, x.index(), live[em.living()[x]])
        &&& units_placed(tables2, x.index())
    } by {
        let b = live[em.living()[x]];
        assert forall|id: ComponentId, off: int| #[trigger]
            placement::sits_at(tables2, x.index(), id, off) == placement::sits_at(
                tables,
                x.index(),
                id,
                off,
            ) by {
            if tables.contains_key(id) {
                assert(tables2.contains_key(id));
                assert(tables2[id].entry(x.index()) == tables[id].entry(x.index()));
            }
        }
        assert forall|off: int| #[trigger] b.contents().contains_key(off) implies exists|
            id: ComponentId,
        | #[trigger] placement::sits_at(tables2, x.index(), id, off) by {
            let id = choose|id: ComponentId| #[trigger]
                placement::sits_at(tables, x.index(), id, off);
            assert(placement::sits_at(tables2, x.index(), id, off));
        }
        assert forall|id: ComponentId| #[trigger]
            tables2.contains_key(id) && tables2[id].kind().size == 0 implies (tables2[id].entry(
            x.index(),
        ) is Some <==> tables2[id].unit(x.index()) is Some) by {
            assert(tables.contains_key(id));
        }
    }
    assert forall|id: ComponentId, i: int|
        tables2.contains_key(id) && (#[trigger] tables2[id].entry(i) is Some || tables2[id].unit(
            i,
        ) is Some) implies {
        &&& 0 <= i < em.slots()
        &&& em.waiting().contains(i as usize) ==> offset_table::lists_slot(
            Seq::<Entity>::empty(),
            i,
        )
    } by {
        assert(tables.contains_key(id));
        assert(!offset_table::lists_slot(dead, i));
        assert(tables2[id].entry(i) == tables[id].entry(i));
        assert(tables2[id].unit(i) == tables[id].unit(i));
    }
    assert forall|x: Entity, i: ComponentId| #[trigger]
        value_of(tables2, em.living(), live, x, i) == value_of(tables, em.living(), live, x, i) by {
        if em.living().contains_key(x) && tables.contains_key(i) {
            assert(tables2.contains_key(i));
            assert(tables2[i].entry(x.index()) == tables[i].entry(x.index()));
        }
    }
}

/// The world's state.
pub struct State<C: Components> {
    components: C,
    entities: EntityManager,
    blob: Blob<C::Value>,
    dead_entities: Vec<Entity>,
}

impl<C: Components> State<C> {
    /// The tables by their components.
    pub closed spec fn tables(&self) -> Map<ComponentId, ComponentOffsetTable<C::Value>> {
        self.components.tables()
    }

    /// The living entities, with the places of their blocks.
    pub closed spec fn living(&self) -> Map<Entity, Offset> {
        self.entities.living()
    }

    /// All entities that were ever created, in order.
    pub closed spec fn history(&self) -> Seq<Entity> {
        self.entities.history()
    }

    /// The blocks in use.
    pub closed spec fn blocks(&self) -> Map<Offset, BlockHandle<C::Value>> {
        self.blob.live()
    }

    /// Whether the component is managed.
    pub open spec fn manages(&self, id: ComponentId) -> bool {
        self.tables().contains_key(id)
    }

    /// The living entities.
    pub open spec fn alive(&self) -> Set<Entity> {
        self.living().dom()
    }

    /// The value of a component of an entity.
    pub open spec fn lookup(&self, e: Entity, id: ComponentId) -> Option<C::Value> {
        value_of(self.tables(), self.living(), self.blocks(), e, id)
    }

    /// The free slots of an entity's block.
    pub open spec fn free_slots(&self, e: Entity) -> Seq<Slot> {
        self.blocks()[self.living()[e]].free_slots()
    }

    /// Whether another entity can be created.
    pub closed spec fn has_room(&self) -> bool {
        self.entities.has_room() && self.blob.has_room(Granularity::Small)
    }

    /// Whether a block of the given granularity can be had.
    pub closed spec fn room(&self, granularity: Granularity) -> bool {
        self.blob.has_room(granularity)
    }

    /// The number of bytes that a component takes up in a block.
    pub open spec fn region(&self, id: ComponentId) -> int {
        placement::region_size(self.tables()[id].kind().size)
    }

    /// Where the component's data is in the entity's block.
    pub open spec fn data_offset(&self, e: Entity, id: ComponentId) -> int {
        self.tables()[id].entry(e.index())->0 as int
    }

    /// Whether setting the component uses up free space of the entity's block.
    pub open spec fn takes_space(&self, e: Entity, id: ComponentId) -> bool {
        &&& self.alive().contains(e)
        &&& self.lookup(e, id) is None
        &&& 0 < self.tables()[id].kind().size
    }

    /// Whether the entity's block has a free slot for the component.
    pub open spec fn has_slot_for(&self, e: Entity, id: ComponentId) -> bool {
        slots::first_fit(self.free_slots(e), self.region(id), 0) < self.free_slots(e).len()
    }

    /// Whether the component can be set: if it uses up free space, the entity's
    /// block has a free slot, or the block can be promoted.
    pub open spec fn has_space_for(&self, e: Entity, id: ComponentId) -> bool {
        self.takes_space(e, id) ==> {
            ||| self.has_slot_for(e, id)
            ||| match block::promotion_for(self.living()[e].granularity, self.region(id)) {
                SlotError::NeedsPromote(g) => self.room(g),
                SlotError::TooBig => false,
            }
        }
    }

    /// What setting a component does to the free space of the entity's block.
    pub open spec fn attached(&self, after: &State<C>, e: Entity, id: ComponentId) -> bool {
        let free = self.free_slots(e);
        let i = slots::first_fit(free, self.region(id), 0);
        if !self.takes_space(e, id) {
            after.living() == self.living() && after.free_slots(e) == free
        } else if self.has_slot_for(e, id) {
            &&& after.living() == self.living()
            &&& after.data_offset(e, id) == free[i].off
            &&& after.free_slots(e) == slots::take_from_slot(free, i, self.region(id))
        } else {
            match block::promotion_for(self.living()[e].granularity, self.region(id)) {
                SlotError::NeedsPromote(granularity) => {
                    let more = free.push(self.extra_slot(e, granularity));
                    let k = slots::first_fit(more, self.region(id), 0);
                    &&& after.living() == self.living().insert(e, after.living()[e])
                    &&& after.living()[e].granularity == granularity
                    &&& self.living()[e].granularity.bytes() < granularity.bytes()
                    &&& after.data_offset(e, id) == more[k].off
                    &&& after.free_slots(e) == slots::take_from_slot(more, k, self.region(id))
                },
                SlotError::TooBig => false,
            }
        }
    }

    /// The free slot that promotion adds to the entity's block.
    pub open spec fn extra_slot(&self, e: Entity, granularity: Granularity) -> Slot {
        let bytes = self.living()[e].granularity.bytes();
        Slot { off: bytes, size: granularity.bytes() - bytes }
    }

    /// As far as blocks could be had they still can, but for those of the granularity that
    /// the block of `e` was promoted to.
    pub open spec fn kept_room(&self, before: &State<C>, e: Entity) -> bool {
        forall|g: Granularity|
            before.room(g) && (self.living()[e] == before.living()[e] || g
                != self.living()[e].granularity) ==> #[trigger] self.room(g)
    }

    /// The blocks of other entities than `e` are where they were, with the same free slots.
    pub open spec fn kept_others(&self, before: &State<C>, e: Entity) -> bool {
        forall|x: Entity|
            #![trigger self.free_slots(x)]
            #![trigger self.living()[x]]
            x != e && before.alive().contains(x) ==> {
                &&& self.living()[x] == before.living()[x]
                &&& self.free_slots(x) == before.free_slots(x)
            }
    }

    /// What removing a component does to the free space of the entity's block.
    pub open spec fn detached(&self, after: &State<C>, e: Entity, id: ComponentId) -> bool {
        let free = self.free_slots(e);
        &&& after.living() == self.living()
        &&& if self.lookup(e, id) is Some && 0 < self.tables()[id].kind().size {
            &&& after.free_slots(e) == slots::coalesce(
                slots::insert_slot(
                    free,
                    Slot { off: self.data_offset(e, id), size: self.region(id) },
                ),
            )
            &&& slots::none_adjacent(after.free_slots(e))
            &&& after.has_slot_for(e, id)
        } else {
            after.free_slots(e) == free
        }
    }

    /// The parts of the state agree with each other.
    pub closed spec fn wf(&self) -> bool {
        &&& self.entities.wf()
        &&& self.blob.wf()
        &&& tables_ok(self.components.tables())
        &&& blocks_owned(self.entities.living(), self.blob.live())
        &&& data_in_blocks(self.components.tables(), self.entities.living(), self.blob.live())
        &&& strays_listed(
            self.components.tables(),
            self.entities.slots(),
            self.entities.waiting(),
            self.dead_entities@,
        )
        &&& dead_wait(self.entities.waiting(), self.dead_entities@)
    }

    /// The state of a world without entities.
    pub fn new(components: C) -> (r: State<C>)
        requires
            forall|id: ComponentId| #[trigger]
                components.tables().contains_key(id) ==> {
                    &&& 0 <= components.tables()[id].kind().size <= LARGE_SIZE
                    &&& forall|i: int| #[trigger] components.tables()[id].entry(i) is None
                    &&& forall|i: int| #[trigger] components.tables()[id].unit(i) is None
                },
        ensures
            r.wf(),
            r.tables() == components.tables(),
            r.alive() == Set::<Entity>::empty(),
            r.history() == Seq::<Entity>::empty(),
            r.has_room(),
            forall|g: Granularity| #[trigger] r.room(g),
    {
        proof {
            components.lemma_tables();
        }
        let r = State {
            components,
            entities: EntityManager::new(),
            blob: Blob::new(),
            dead_entities: Vec::with_capacity(MIN_UNUSED),
        };
        proof {
            assert(r.alive() =~= Set::<Entity>::empty());
            assert(r.history() =~= Seq::<Entity>::empty());
            assert forall|g: Granularity| #[trigger] r.room(g) by {
                let slab = r.blob.slab(g);
                assert(slab.grown_size() == 512 && slab.spec_granularity().bytes() <= LARGE_SIZE);
                assert(slab.can_grow());
            }
            assert(r.room(Granularity::Small));
        }
        r
    }

    /// Whether another entity can be created.
    pub fn can_spawn(&self) -> (r: bool)
        ensures
            r == self.has_room(),
    {
        self.entities.can_spawn() && self.blob.can_allocate(Granularity::Small)
    }

    /// Gets an entity from the entity manager, and allocates a small block for it.
    pub fn next_entity(&mut self) -> (e: Entity)
        requires
            old(self).wf(),
            old(self).has_room(),
        ensures
            final(self).wf(),
            !old(self).alive().contains(e),
            final(self).alive() == old(self).alive().insert(e),
            final(self).tables() == old(self).tables(),
            forall|x: Entity, id: ComponentId| #[trigger]
                final(self).lookup(x, id) == if x == e {
                    None
                } else {
                    old(self).lookup(x, id)
                },
            final(self).history() == old(self).history().push(e),
            old(self).history().contains(e) ==> MIN_UNUSED * entity::GENERATIONS <= old(
                self,
            ).history().len(),
            forall|k: int|
                0 <= k < old(self).history().len() && #[trigger] old(self).history()[k] == e ==> old(
                    self,
                ).history().len() - k > 255 * entity::spacing(),
            final(self).living()[e].granularity == Granularity::Small,
            final(self).free_slots(e) == seq![
                Slot { off: 0, size: Granularity::Small.bytes() },
            ],
            final(self).kept_others(old(self), e),
            forall|g: Granularity|
                g != Granularity::Small ==> #[trigger] final(self).room(g) == old(self).room(g),
    {
        let ghost live = self.blob.live();
        // we give each entity a small block by default.
        let offset = self.blob.next_block(Granularity::Small);
        let e = self.entities.next_entity(offset);
        self.blob.get_block_mut(offset).initialize(e);
        proof {
            assert(self.blob.live() =~= live.insert(offset, self.blob.live()[offset]));
            lemma_spawn(
                self.components.tables(),
                old(self).entities,
                self.entities,
                live,
                self.blob.live(),
                self.dead_entities@,
                e,
                offset,
            );
            assert(self.alive() =~= old(self).alive().insert(e));
            assert forall|x: Entity, id: ComponentId| #[trigger]
                self.lookup(x, id) == if x == e {
                    None
                } else {
                    old(self).lookup(x, id)
                } by {
            }
        }
        e
    }

    /// If the provided entity is currently alive, mark it dead and free its data block.
    pub fn destroy_entity(&mut self, e: Entity)
        requires
            old(self).wf(),
        ensures
            final(self).wf(),
            final(self).alive() == old(self).alive().remove(e),
            same_kinds(old(self).tables(), final(self).tables()),
            forall|x: Entity, id: ComponentId| #[trigger]
                final(self).lookup(x, id) == if x == e {
                    None
                } else {
                    old(self).lookup(x, id)
                },
            final(self).history() == old(self).history(),
            old(self).has_room() ==> final(self).has_room(),
            forall|g: Granularity| old(self).room(g) ==> #[trigger] final(self).room(g),
            final(self).kept_others(old(self), e),
    {
        let offset = match self.entities.offset_of(e) {
            None => {
                assert(self.alive() =~= old(self).alive().remove(e));
                return;
            },
            Some(offset) => offset,
        };
        self.blob.free_block(offset);
        self.entities.destroy_entity(e);
        proof {
            old(self).entities.lemma_waiting();
            lemma_death_blocks(
                self.components.tables(),
                old(self).entities.living(),
                old(self).blob.live(),
                e,
            );
            lemma_death_waits(
                self.components.tables(),
                self.entities.slots(),
                old(self).entities.waiting(),
                self.dead_entities@,
                e,
            );
            assert(self.alive() =~= old(self).alive().remove(e));
            assert(self.blob.has_room(Granularity::Small) || !old(self).blob.has_room(
                Granularity::Small,
            ));
        }
        // cache dead entities until their index can possibly be recycled.
        // then have each component offset table clear them all at once,
        // minimizing cache misses for the batch.
        self.dead_entities.push(e);
        let ghost mid = *self;
        if self.dead_entities.len() > MIN_UNUSED {
            self.components.clear_components_for(&self.dead_entities);
            proof {
                lemma_clear(
                    mid.components.tables(),
                    self.components.tables(),
                    self.entities,
                    self.blob.live(),
                    self.dead_entities@,
                );
            }
            self.dead_entities.clear();
            assert(self.dead_entities@ =~= Seq::<Entity>::empty());
        }
        proof {
            assert forall|x: Entity, id: ComponentId| #[trigger]
                self.lookup(x, id) == if x == e {
                    None
                } else {
                    old(self).lookup(x, id)
                } by {
                assert(value_of(
                    mid.components.tables(),
                    mid.entities.living(),
                    mid.blob.live(),
                    x,
                    id,
                ) == mid.lookup(x, id));
                assert(value_of(
                    self.components.tables(),
                    self.entities.living(),
                    self.blob.live(),
                    x,
                    id,
                ) == self.lookup(x, id));
            }
        }
    }

    /// Destroy all entities in the list.
    pub fn destroy_entities(&mut self, entities: &Vec<Entity>)
        requires
            old(self).wf(),
        ensures
            final(self).wf(),
            final(self).alive() == old(self).alive().difference(entities@.to_set()),
            same_kinds(old(self).tables(), final(self).tables()),
            forall|x: Entity, id: ComponentId| #[trigger]
                final(self).lookup(x, id) == if entities@.contains(x) {
                    None
                } else {
                    old(self).lookup(x, id)
                },
            final(self).history() == old(self).history(),
            old(self).has_room() ==> final(self).has_room(),
            forall|x: Entity|
                #![trigger final(self).free_slots(x)]
                #![trigger final(self).living()[x]]
                final(self).alive().contains(x) ==> {
                    &&& final(self).living()[x] == old(self).living()[x]
                    &&& final(self).free_slots(x) == old(self).free_slots(x)
                },
    {
        let mut n: usize = 0;
        assert(self.alive() =~= old(self).alive().difference(entities@.take(0).to_set()));
        while n < entities.len()
            invariant
                n <= entities@.len(),
                self.wf(),
                self.alive() == old(self).alive().difference(entities@.take(n as int).to_set()),
                same_kinds(old(self).tables(), self.tables()),
                forall|x: Entity, id: ComponentId| #[trigger]
                    self.lookup(x, id) == if entities@.take(n as int).contains(x) {
                        None
                    } else {
                        old(self).lookup(x, id)
                    },
                self.history() == old(self).history(),
                old(self).has_room() ==> self.has_room(),
                forall|x: Entity|
                    #![trigger self.free_slots(x)]
                    #![trigger self.living()[x]]
                    self.alive().contains(x) ==> {
                        &&& self.living()[x] == old(self).living()[x]
                        &&& self.free_slots(x) == old(self).free_slots(x)
                    },
            decreases entities@.len() - n,
        {
            let ghost before = *self;
            let e = entities[n];
            self.destroy_entity(e);
            proof {
                let s = entities@.take(n as int);
                let t = entities@.take(n + 1);
                assert forall|x: Entity| #[trigger] t.contains(x) == (s.contains(x) || x == e) by {
                    assert(t[n as int] == e);
                    if s.contains(x) {
                        let k = choose|k: int| 0 <= k < s.len() && s[k] == x;
                        assert(t[k] == x);
                    }
                    if t.contains(x) {
                        let k = choose|k: int| 0 <= k < t.len() && t[k] == x;
                        if k < n {
                            assert(s[k] == x);
                        }
                    }
                }
                assert(self.alive() =~= old(self).alive().difference(t.to_set()));
                assert forall|x: Entity, id: ComponentId| #[trigger]
                    self.lookup(x, id) == if t.contains(x) {
                        None
                    } else {
                        old(self).lookup(x, id)
                    } by {
                    assert(before.lookup(x, id) == before.lookup(x, id));
                }
            }
            n = n + 1;
        }
        assert(entities@.take(n as int) =~= entities@);
    }

    /// Whether an entity has a component. This checks whether the entity is alive first.
    pub fn has_component(&self, e: Entity, id: ComponentId) -> (r: bool)
        requires
            self.wf(),
            self.manages(id),
        ensures
            r == (self.lookup(e, id) is Some),
    {
        self.is_alive(e) && self.components.get(id).offset_of(e).is_some()
    }

    /// Whether an entity is alive.
    pub fn is_alive(&self, e: Entity) -> (r: bool)
        ensures
            r == self.alive().contains(e),
    {
        self.entities.is_alive(e)
    }

    /// Get a reference to an entity's component.
    pub fn get_component(&self, e: Entity, id: ComponentId) -> (r: Option<&C::Value>)
        requires
            self.wf(),
            self.manages(id),
        ensures
            match r {
                Some(v) => self.lookup(e, id) == Some(*v),
                None => self.lookup(e, id) is None,
            },
    {
        let block_offset = match self.entities.offset_of(e) {
            None => {
                return None;
            },
            Some(block_offset) => block_offset,
        };
        let table = self.components.get(id);
        match table.offset_of(e) {
            None => None,
            Some(offset) => {
                if table.size() == 0 {
                    table.unit_of(e)
                } else {
                    // We store offsets only for blocks which we can get handles for.
                    assert(placement::sits_at(self.tables(), e.index(), id, offset as int));
                    self.blob.get_block(block_offset).data_ptr(offset as usize)
                }
            },
        }
    }

    // the same but for one component of one entity.
    spec fn changed(&self, before: &State<C>, e: Entity, id: ComponentId) -> bool {
        &&& self.alive() == before.alive()
        &&& same_kinds(before.tables(), self.tables())
        &&& self.history() == before.history()
        &&& forall|x: Entity, i: ComponentId|
            x != e || i != id ==> #[trigger] self.lookup(x, i) == before.lookup(x, i)
        &&& self.kept_others(before, e)
    }

    // the part of the proof that is common to all changes of one component.
    proof fn lemma_changed(&self, before: &State<C>, e: Entity, id: ComponentId)
        requires
            before.wf(),
            before.living().contains_key(e),
            before.manages(id),
            self.entities.wf(),
            self.blob.wf(),
            self.entities.slots() == before.entities.slots(),
            self.entities.waiting() == before.entities.waiting(),
            self.entities.history() == before.entities.history(),
            self.dead_entities@ == before.dead_entities@,
            placement::retabled(before.tables(), self.tables(), id, e.index()),
            self.living() == before.living().insert(e, self.living()[e]),
            !before.blocks().contains_key(self.living()[e]) || self.living()[e]
                == before.living()[e],
            self.blocks() == before.blocks().remove(before.living()[e]).insert(
                self.living()[e],
                self.blocks()[self.living()[e]],
            ),
            self.blocks()[self.living()[e]].owner() == Some(e),
            placement::data_placed(self.tables(), e.index(), self.blocks()[self.living()[e]]),
            units_placed(self.tables(), e.index()),
            forall|i: ComponentId, off: int|
                i != id && #[trigger] placement::sits_at(before.tables(), e.index(), i, off)
                    ==> self.blocks()[self.living()[e]].contents()[off]
                    == before.blocks()[before.living()[e]].contents()[off],
        ensures
            self.wf(),
            self.changed(before, e, id),
    {
        lemma_change(
            before.components.tables(),
            self.components.tables(),
            before.entities,
            self.entities,
            before.blob.live(),
            self.blob.live(),
            e,
            id,
        );
        lemma_change_strays(
            before.components.tables(),
            self.components.tables(),
            before.entities,
            self.dead_entities@,
            e,
            id,
        );
        assert forall|x: Entity, i: ComponentId| x != e || i != id implies #[trigger] self.lookup(
            x,
            i,
        ) == before.lookup(x, i) by {
            assert(value_of(self.tables(), self.living(), self.blocks(), x, i) == value_of(
                before.tables(),
                before.living(),
                before.blocks(),
                x,
                i,
            ));
        }
    }

    // what the invariant says of the data of one component.
    proof fn lemma_placed(&self, e: Entity, id: ComponentId)
        requires
            self.wf(),
            self.manages(id),
            self.living().contains_key(e),
        ensures
            self.blocks().contains_key(self.living()[e]),
            self.blocks()[self.living()[e]].owner() == Some(e),
            placement::data_placed(self.tables(), e.index(), self.blocks()[self.living()[e]]),
            units_placed(self.tables(), e.index()),
            0 <= self.tables()[id].kind().size <= LARGE_SIZE,
            self.tables()[id].entry(e.index()) is Some && 0 < self.tables()[id].kind().size ==> {
                &&& placement::sits_at(self.tables(), e.index(), id, self.data_offset(e, id))
                &&& placement::region_in_use(
                    self.blocks()[self.living()[e]],
                    self.data_offset(e, id),
                    self.region(id),
                )
            },
            self.lookup(e, id) is Some <==> self.tables()[id].entry(e.index()) is Some,
    {
        if self.tables()[id].entry(e.index()) is Some && 0 < self.tables()[id].kind().size {
            assert(placement::sits_at(self.tables(), e.index(), id, self.data_offset(e, id)));
        }
    }

    /// Get a mutable reference to an entity's component.
    pub fn get_mut_component(&mut self, e: Entity, id: ComponentId) -> (r: Option<&mut C::Value>)
        requires
            old(self).wf(),
            old(self).manages(id),
        ensures
            final(self).wf(),
            final(self).alive() == old(self).alive(),
            same_kinds(old(self).tables(), final(self).tables()),
            final(self).history() == old(self).history(),
            forall|x: Entity, i: ComponentId|
                x != e || i != id ==> #[trigger] final(self).lookup(x, i) == old(self).lookup(x, i),
            match r {
                Some(v) => {
                    &&& old(self).lookup(e, id) == Some(*v)
                    &&& final(self).lookup(e, id) == Some(*final(v))
                },
                None => {
                    &&& old(self).lookup(e, id) is None
                    &&& final(self).lookup(e, id) is None
                },
            },
            final(self).kept_others(old(self), e),
            final(self).living() == old(self).living(),
            final(self).free_slots(e) == old(self).free_slots(e),
            final(self).has_room() == old(self).has_room(),
            forall|g: Granularity| #[trigger] final(self).room(g) == old(self).room(g),
    {
        let block_offset = match self.entities.offset_of(e) {
            None => {
                return None;
            },
            Some(block_offset) => block_offset,
        };
        proof {
            self.lemma_placed(e, id);
        }
        let (offset, size) = {
            let table = self.components.get(id);
            (table.offset_of(e), table.size())
        };
        match offset {
            None => None,
            Some(offset) => {
                if size == 0 {
                    let r = self.components.get_mut(id).unit_of_mut(e);
                    proof {
                        let after = after_borrow(*self);
                        assert(after.living() =~= old(self).living().insert(e, after.living()[e]));
                        assert(after.blocks() =~= old(self).blocks().remove(
                            old(self).living()[e],
                        ).insert(after.living()[e], after.blocks()[after.living()[e]]));
                        placement::lemma_retabled(
                            old(self).tables(),
                            after.tables()[id],
                            id,
                            e.index(),
                        );
                        placement::lemma_placed_same(
                            old(self).tables(),
                            after.tables(),
                            id,
                            e.index(),
                            old(self).blocks()[block_offset],
                        );
                        after.lemma_changed(old(self), e, id);
                    }
                    r
                } else {
                    let r = self.blob.get_block_mut(block_offset).data_ptr_mut(offset as usize);
                    proof {
                        let after = after_borrow(*self);
                        assert(after.living() =~= old(self).living().insert(e, after.living()[e]));
                        assert(after.blocks() =~= old(self).blocks().remove(
                            old(self).living()[e],
                        ).insert(after.living()[e], after.blocks()[after.living()[e]]));
                        placement::lemma_placed_write(
                            old(self).tables(),
                            e.index(),
                            old(self).blocks()[block_offset],
                            after.blocks()[block_offset],
                            offset as int,
                            after.blocks()[block_offset].contents()[offset as int],
                        );
                        after.lemma_changed(old(self), e, id);
                    }
                    r
                }
            },
        }
    }

    /// Whether the component can be set.
    pub fn can_set(&self, e: Entity, id: ComponentId) -> (r: bool)
        requires
            self.wf(),
            self.manages(id),
        ensures
            r == self.has_space_for(e, id),
    {
        let block_offset = match self.entities.offset_of(e) {
            None => {
                return true;
            },
            Some(block_offset) => block_offset,
        };
        proof {
            self.lemma_placed(e, id);
        }
        let table = self.components.get(id);
        if table.size() == 0 || table.offset_of(e).is_some() {
            return true;
        }
        match self.blob.get_block(block_offset).check_free(table.size()) {
            Ok(_) => true,
            Err(SlotError::NeedsPromote(granularity)) => self.blob.can_allocate(granularity),
            Err(SlotError::TooBig) => false,
        }
    }

    // finds a slot for a component that the entity does not have yet.
    fn allocate(&mut self, e: Entity, id: ComponentId, size: usize, value: C::Value)
        requires
            old(self).wf(),
            old(self).manages(id),
            old(self).takes_space(e, id),
            old(self).has_space_for(e, id),
            size == old(self).tables()[id].kind().size,
        ensures
            final(self).wf(),
            final(self).changed(old(self), e, id),
            final(self).lookup(e, id) == Some(value),
            old(self).attached(final(self), e, id),
            old(self).has_room() ==> final(self).has_room(),
            final(self).kept_room(old(self), e),
    {
        proof {
            self.lemma_placed(e, id);
            arith::lemma_round_up(size as int, 16);
        }
        let ghost need = self.region(id);
        let ghost mut b = self.blocks()[self.living()[e]];
        let mut block_offset = match self.entities.offset_of(e) {
            None => {
                return;
            },
            Some(block_offset) => block_offset,
        };
        match self.blob.get_block(block_offset).check_free(size) {
            Ok(_) => {},
            Err(SlotError::NeedsPromote(granularity)) => {
                let ghost free = b.free_slots();
                block_offset = self.blob.promote_block(block_offset, granularity);
                self.entities.set_offset(e, block_offset);
                proof {
                    b = self.blocks()[block_offset];
                    placement::lemma_placed_promote(
                        self.tables(),
                        e.index(),
                        old(self).blocks()[old(self).living()[e]],
                        b,
                    );
                    placement::lemma_first_fit(
                        b.free_slots(),
                        need,
                        free.len() as int,
                        0,
                    );
                }
            },
            Err(SlotError::TooBig) => {},
        }
        let ghost s = b.free_slots();
        let ghost i = slots::first_fit(s, need, 0);
        proof {
            placement::lemma_first_fit_fits(s, need, 0);
            b.lemma_contents();
        }
        let block = self.blob.get_block_mut(block_offset);
        let offset: usize = match block.next_free(size) {
            Ok(offset) => offset,
            Err(_) => 0,
        };
        proof {
            slots::lemma_take_covers(s, i, need, b.spec_granularity().bytes(), s[i].off);
        }
        // write the component data into the slot we found.
        block.write(offset, value);
        // store the offset in the component's table.
        self.components.get_mut(id).set(e, offset as u16);
        proof {
            let b2 = self.blocks()[block_offset];
            placement::lemma_retabled(old(self).tables(), self.tables()[id], id, e.index());
            placement::lemma_placed_add(
                old(self).tables(),
                self.tables(),
                id,
                e.index(),
                b,
                b2,
                i,
                value,
            );
            assert(self.living() =~= old(self).living().insert(e, self.living()[e]));
            assert(self.blocks() =~= old(self).blocks().remove(old(self).living()[e]).insert(
                self.living()[e],
                self.blocks()[self.living()[e]],
            ));
            self.lemma_changed(old(self), e, id);
        }
    }

    /// Sets the component for an entity. Returns the old data, if it existed.
    pub fn set_component(&mut self, e: Entity, id: ComponentId, value: C::Value) -> (r: Option<
        C::Value,
    >)
        requires
            old(self).wf(),
            old(self).manages(id),
            old(self).has_space_for(e, id),
        ensures
            final(self).wf(),
            r == old(self).lookup(e, id),
            final(self).alive() == old(self).alive(),
            same_kinds(old(self).tables(), final(self).tables()),
            final(self).history() == old(self).history(),
            forall|x: Entity, i: ComponentId| #[trigger]
                final(self).lookup(x, i) == if x == e && i == id && old(self).alive().contains(e) {
                    Some(value)
                } else {
                    old(self).lookup(x, i)
                },
            old(self).attached(final(self), e, id),
            final(self).kept_others(old(self), e),
            old(self).has_room() ==> final(self).has_room(),
            final(self).kept_room(old(self), e),
    {
        let block_offset = match self.entities.offset_of(e) {
            None => {
                return None;
            },
            Some(block_offset) => block_offset,
        };
        proof {
            self.lemma_placed(e, id);
        }
        let (slot, size) = {
            let table = self.components.get(id);
            (table.offset_of(e), table.size())
        };
        match slot {
            Some(offset) => {
                // already have a slot for this component.
                if size == 0 {
                    // we don't use space for zero-sized components.
                    self.replace_unit(e, id, value)
                } else {
                    let ghost b = self.blocks()[block_offset];
                    proof {
                        assert(!slots::in_slots(b.free_slots(), offset as int)) by {
                            arith::lemma_round_up(size as int, 16);
                        }
                    }
                    let r = self.blob.get_block_mut(block_offset).write(offset as usize, value);
                    proof {
                        placement::lemma_placed_write(
                            self.tables(),
                            e.index(),
                            b,
                            self.blocks()[block_offset],
                            offset as int,
                            value,
                        );
                        assert(self.living() =~= old(self).living().insert(e, self.living()[e]));
                        assert(self.blocks() =~= old(self).blocks().remove(
                            old(self).living()[e],
                        ).insert(self.living()[e], self.blocks()[self.living()[e]]));
                        self.lemma_changed(old(self), e, id);
                    }
                    r
                }
            },
            None => {
                // no slot for this component yet. Try to create a new one.
                if size == 0 {
                    self.replace_unit(e, id, value)
                } else {
                    self.allocate(e, id, size, value);
                    None
                }
            },
        }
    }

    // sets a component that takes up no space.
    fn replace_unit(&mut self, e: Entity, id: ComponentId, value: C::Value) -> (r: Option<
        C::Value,
    >)
        requires
            old(self).wf(),
            old(self).manages(id),
            old(self).alive().contains(e),
            old(self).tables()[id].kind().size == 0,
        ensures
            final(self).wf(),
            final(self).changed(old(self), e, id),
            final(self).lookup(e, id) == Some(value),
            r == old(self).lookup(e, id),
            old(self).attached(final(self), e, id),
            final(self).has_room() == old(self).has_room(),
            final(self).kept_room(old(self), e),
    {
        proof {
            self.lemma_placed(e, id);
        }
        let table = self.components.get_mut(id);
        table.set(e, 1);
        let r = table.set_unit(e, value);
        proof {
            placement::lemma_retabled(old(self).tables(), self.tables()[id], id, e.index());
            placement::lemma_placed_same(
                old(self).tables(),
                self.tables(),
                id,
                e.index(),
                self.blocks()[self.living()[e]],
            );
            assert(self.living() =~= old(self).living().insert(e, self.living()[e]));
            assert(self.blocks() =~= old(self).blocks().remove(old(self).living()[e]).insert(
                self.living()[e],
                self.blocks()[self.living()[e]],
            ));
            self.lemma_changed(old(self), e, id);
        }
        r
    }

    /// Removes component data for an entity. Returns the old data, if it existed.
    pub fn remove_component(&mut self, e: Entity, id: ComponentId) -> (r: Option<C::Value>)
        requires
            old(self).wf(),
            old(self).manages(id),
        ensures
            final(self).wf(),
            r == old(self).lookup(e, id),
            final(self).alive() == old(self).alive(),
            same_kinds(old(self).tables(), final(self).tables()),
            final(self).history() == old(self).history(),
            forall|x: Entity, i: ComponentId| #[trigger]
                final(self).lookup(x, i) == if x == e && i == id {
                    None
                } else {
                    old(self).lookup(x, i)
                },
            old(self).detached(final(self), e, id),
            final(self).kept_others(old(self), e),
            final(self).has_room() == old(self).has_room(),
            forall|g: Granularity| #[trigger] final(self).room(g) == old(self).room(g),
    {
        let block_offset = match self.entities.offset_of(e) {
            None => {
                return None;
            },
            Some(block_offset) => block_offset,
        };
        proof {
            self.lemma_placed(e, id);
        }
        let table = self.components.get_mut(id);
        let size: usize = table.size();
        match table.remove(e) {
            None => {
                proof {
                    placement::lemma_retabled(old(self).tables(), self.tables()[id], id, e.index());
                    self.lemma_unplaced(old(self), e, id);
                }
                None
            },
            Some(offset) => {
                if size == 0 {
                    let r = table.take_unit(e);
                    proof {
                        placement::lemma_retabled(
                            old(self).tables(),
                            self.tables()[id],
                            id,
                            e.index(),
                        );
                        self.lemma_unplaced(old(self), e, id);
                    }
                    r
                } else {
                    // read the data out of the slot, then mark it free and attempt to merge
                    // adjacent slots to reduce fragmentation.
                    let ghost b = self.blob.live()[block_offset];
                    let ghost s = b.free_slots();
                    let ghost need = old(self).region(id);
                    let ghost bytes = b.spec_granularity().bytes();
                    let block = self.blob.get_block_mut(block_offset);
                    proof {
                        arith::lemma_round_up(size as int, 16);
                        b.lemma_contents();
                        placement::lemma_none_free_apart(s, offset as int, need, bytes);
                        placement::lemma_released(s, offset as int, need, bytes);
                        assert forall|off: int| #[trigger]
                            b.contents().remove(offset as int).contains_key(off) implies off
                            < offset || offset + need <= off by {
                            assert(b.contents().contains_key(off));
                            let i2 = choose|i2: ComponentId| #[trigger]
                                placement::sits_at(old(self).tables(), e.index(), i2, off);
                            arith::lemma_round_up(old(self).tables()[i2].kind().size, 16);
                            assert(placement::sits_at(
                                old(self).tables(),
                                e.index(),
                                id,
                                offset as int,
                            ));
                        }
                    }
                    let data = block.take(offset as usize);
                    block.mark_free(offset as usize, size);
                    block.merge_adjacent_slots();
                    proof {
                        placement::lemma_retabled(
                            old(self).tables(),
                            self.tables()[id],
                            id,
                            e.index(),
                        );
                        placement::lemma_placed_remove(
                            old(self).tables(),
                            self.tables(),
                            id,
                            e.index(),
                            b,
                            self.blocks()[block_offset],
                            offset as int,
                        );
                        assert(self.living() =~= old(self).living().insert(e, self.living()[e]));
                        assert(self.blocks() =~= old(self).blocks().remove(
                            old(self).living()[e],
                        ).insert(self.living()[e], self.blocks()[self.living()[e]]));
                        self.lemma_changed(old(self), e, id);
                    }
                    data
                }
            },
        }
    }

    // a component that takes up no space is removed.
    proof fn lemma_unplaced(&self, before: &State<C>, e: Entity, id: ComponentId)
        requires
            before.wf(),
            before.manages(id),
            before.living().contains_key(e),
            before.tables()[id].kind().size == 0 || before.tables()[id].entry(e.index()) is None,
            self.entities == before.entities,
            self.blob == before.blob,
            self.dead_entities == before.dead_entities,
            placement::retabled(before.tables(), self.tables(), id, e.index()),
            self.tables()[id].entry(e.index()) is None,
            before.tables()[id].kind().size == 0 ==> self.tables()[id].unit(e.index()) is None,
        ensures
            self.wf(),
            self.changed(before, e, id),
            self.lookup(e, id) is None,
    {
        before.lemma_placed(e, id);
        placement::lemma_placed_same(
            before.tables(),
            self.tables(),
            id,
            e.index(),
            self.blocks()[self.living()[e]],
        );
        assert(self.living() =~= before.living().insert(e, self.living()[e]));
        assert(self.blocks() =~= before.blocks().remove(before.living()[e]).insert(
            self.living()[e],
            self.blocks()[self.living()[e]],
        ));
        self.lemma_changed(before, e, id);
    }

    /// Whether a (possibly dead) entity has a component.
    /// The caller should check that the entity is in fact alive before attempting
    /// to use this offset.
    pub fn has_component_unchecked(&self, e: Entity, id: ComponentId) -> (r: bool)
        requires
            self.manages(id),
        ensures
            r == (self.tables()[id].entry(e.index()) is Some),
            self.wf() && self.alive().contains(e) ==> r == (self.lookup(e, id) is Some),
    {
        proof {
            if self.wf() && self.alive().contains(e) {
                self.lemma_placed(e, id);
            }
        }
        self.components.get(id).offset_of(e).is_some()
    }

    /// The living entities, in the order of their slots.
    pub closed spec fn living_list(&self) -> Seq<Entity> {
        self.entities.living_list()
    }

    /// Each living entity owns a block of its own, and no other block is in use.
    pub proof fn law_blocks_belong_to_the_living(&self)
        requires
            self.wf(),
        ensures
            blocks_owned(self.living(), self.blocks()),
            self.living_list().no_duplicates(),
            self.living_list().to_set() == self.alive(),
    {
        self.entities.law_iter_visits_the_living();
        assert(self.living_list().to_set() =~= self.alive());
    }

    /// The data of two components of an entity never shares a byte, and lies
    /// outside the free memory of the entity's block.
    pub proof fn law_data_never_overlaps(&self, e: Entity, a: ComponentId, b: ComponentId)
        requires
            self.wf(),
            self.manages(a),
            self.manages(b),
            a != b,
            self.lookup(e, a) is Some,
            self.lookup(e, b) is Some,
            0 < self.tables()[a].kind().size,
            0 < self.tables()[b].kind().size,
        ensures
            placement::disjoint(
                self.data_offset(e, a),
                self.region(a),
                self.data_offset(e, b),
                self.region(b),
            ),
            placement::none_free(self.free_slots(e), self.data_offset(e, a), self.region(a)),
    {
        self.lemma_placed(e, a);
        self.lemma_placed(e, b);
    }

    /// Memory released by removing a component is merged with other free memory,
    /// and used again when the component is attached: attaching a component to a
    /// block whose free memory is merged and removing it again leaves the free
    /// memory as it was, so it can be done any number of times.
    pub proof fn law_reattaching_does_not_grow(
        before: &State<C>,
        between: &State<C>,
        after: &State<C>,
        e: Entity,
        id: ComponentId,
    )
        requires
            before.wf(),
            before.manages(id),
            before.takes_space(e, id),
            before.has_slot_for(e, id),
            slots::none_adjacent(before.free_slots(e)),
            before.attached(between, e, id),
            same_kinds(before.tables(), between.tables()),
            between.lookup(e, id) is Some,
            between.detached(after, e, id),
            same_kinds(between.tables(), after.tables()),
        ensures
            after.living() == before.living(),
            after.free_slots(e) == before.free_slots(e),
            after.has_slot_for(e, id),
    {
        before.lemma_placed(e, id);
        let free = before.free_slots(e);
        let need = before.region(id);
        let b = before.blocks()[before.living()[e]];
        arith::lemma_round_up(before.tables()[id].kind().size, 16);
        assert(between.manages(id));
        assert(after.manages(id));
        placement::lemma_first_fit_fits(free, need, 0);
        assert(b.wf()) by {
            before.lemma_block_wf(before.living()[e]);
        }
        b.lemma_contents();
        slots::law_release_undoes_take(
            free,
            slots::first_fit(free, need, 0),
            need,
            b.spec_granularity().bytes(),
        );
    }

    // blocks in use are well formed.
    proof fn lemma_block_wf(&self, o: Offset)
        requires
            self.wf(),
            self.blocks().contains_key(o),
        ensures
            self.blocks()[o].wf(),
    {
        self.blob.lemma_block(o);
    }

    /// Make a vector of the places of all blocks whose entities fulfill the
    /// predicate provided, by the entities' slots. Uses the given allocator to create
    /// the vector, and fails if there is no memory for it.
    pub fn all_which_fulfill<P: Fn(Entity) -> bool, A: Allocator>(&self, pred: P, allocator: A) -> (r:
        Result<Vector<Offset, A>, A::Error>)
        requires
            self.wf(),
            forall|e: Entity| #[trigger] self.alive().contains(e) ==> call_requires(pred, (e,)),
        ensures
            r matches Ok(offsets) ==> exists|keep: Seq<bool>|
                {
                    &&& #[trigger] answers(pred, self.living_list(), keep)
                    &&& offsets@ == picked(self.living_list(), keep).map_values(
                        |e: Entity| self.living()[e],
                    )
                },
            (forall|e: Entity, b: bool|
                self.alive().contains(e) && #[trigger] call_ensures(pred, (e,), b) ==> !b)
                ==> r is Ok,
            r matches Err(error) ==> vector::lacks_memory::<Offset, A>(
                allocator,
                self.living_list().len() as int,
                error,
            ),
    {
        let mut offsets: Vector<Offset, A> = Vector::with_alloc(allocator);
        let ghost mut keep: Seq<bool> = Seq::empty();
        let ghost list = self.living_list();
        let mut entities = self.entities.iter();
        proof {
            self.law_blocks_belong_to_the_living();
            assert(list.skip(0) =~= list);
            assert(picked(list.take(0), keep).map_values(|e: Entity| self.living()[e])
                =~= offsets@);
        }
        loop
            invariant
                self.wf(),
                list == self.living_list(),
                list.to_set() == self.alive(),
                forall|e: Entity| #[trigger] self.alive().contains(e) ==> call_requires(pred, (e,)),
                entities.wf(),
                offsets.wf(),
                offsets@.len() <= keep.len(),
                offsets.spec_capacity() == raw_vec::unallocated::<Offset>()
                    ==> offsets.spec_alloc() == allocator,
                keep.len() <= list.len(),
                entities.remaining() == list.skip(keep.len() as int),
                answers(pred, list.take(keep.len() as int), keep),
                offsets@ == picked(list.take(keep.len() as int), keep).map_values(
                    |e: Entity| self.living()[e],
                ),
            ensures
                keep.len() == list.len(),
            decreases list.len() - keep.len(),
        {
            match entities.next() {
                None => {
                    break;
                },
                Some(e) => {
                    let ghost n = keep.len() as int;
                    let ghost before = offsets@;
                    assert(list[n] == e);
                    assert(list.to_set().contains(e));
                    assert(self.alive().contains(e));
                    let fulfilled = pred(e);
                    if fulfilled {
                        if let Some(offset) = self.entities.offset_of(e) {
                            let ghost held = offsets;
                            proof {
                                offsets.lemma_len();
                                offsets.lemma_capacity();
                            }
                            if !offsets.check_growth() {
                                assert(raw_vec::at_limit::<Offset>(held.spec_capacity()));
                                return Err(A::Error::invalid_input());
                            }
                            match offsets.push(offset) {
                                Ok(_) => {},
                                Err(error) => {
                                    assert(raw_vec::can_resize::<Offset, A>(
                                        held.spec_alloc(),
                                        held.spec_capacity(),
                                        raw_vec::doubled::<Offset>(held.spec_capacity()),
                                        Err(error),
                                        offsets.spec_alloc(),
                                    ));
                                    assert(raw_vec::may_refuse_resize::<Offset, A>(
                                        held.spec_alloc(),
                                        held.spec_capacity(),
                                        raw_vec::doubled::<Offset>(held.spec_capacity()),
                                        error,
                                    ));
                                    return Err(error);
                                },
                            }
                        }
                    }
                    proof {
                        let keep2 = keep.push(fulfilled);
                        assert(list.take(n + 1).drop_last() =~= list.take(n));
                        assert(keep2.drop_last() =~= keep);
                        assert(list.skip(n).drop_first() =~= list.skip(n + 1));
                        let f = |e: Entity| self.living()[e];
                        let p = picked(list.take(n), keep);
                        assert(offsets@ =~= picked(list.take(n + 1), keep2).map_values(f)) by {
                            if fulfilled {
                                assert(p.push(e).map_values(f) =~= p.map_values(f).push(f(e)));
                            }
                        }
                        keep = keep2;
                    }
                },
            }
        }
        assert(list.take(list.len() as int) =~= list);
        Ok(offsets)
    }
}

/// `keep` says of each entity what the predicate says of it.
pub open spec fn answers<P: Fn(Entity) -> bool>(
    pred: P,
    list: Seq<Entity>,
    keep: Seq<bool>,
) -> bool {
    &&& keep.len() == list.len()
    &&& forall|k: int|
        0 <= k < list.len() ==> call_ensures(pred, (list[k],), #[trigger] keep[k])
}

/// The entities of the list that are kept.
pub open spec fn picked(list: Seq<Entity>, keep: Seq<bool>) -> Seq<Entity>
    decreases list.len(),
{
    if list.len() == 0 {
        Seq::empty()
    } else if keep.last() {
        picked(list.drop_last(), keep.drop_last()).push(list.last())
    } else {
        picked(list.drop_last(), keep.drop_last())
    }
}

// the places of what is kept, in order.
proof fn lemma_picked(list: Seq<Entity>, keep: Seq<bool>) -> (at: Seq<int>)
    requires
        keep.len() == list.len(),
    ensures
        at.len() == picked(list, keep).len(),
        forall|j: int|
            0 <= j < at.len() ==> {
                &&& 0 <= #[trigger] at[j] < list.len()
                &&& keep[at[j]]
                &&& picked(list, keep)[j] == list[at[j]]
            },
        forall|i: int, j: int| 0 <= i < j < at.len() ==> #[trigger] at[i] < #[trigger] at[j],
        forall|k: int| 0 <= k < list.len() && #[trigger] keep[k] ==> at.contains(k),
    decreases list.len(),
{
    if list.len() == 0 {
        Seq::empty()
    } else {
        let n = list.len() - 1;
        let before = lemma_picked(list.drop_last(), keep.drop_last());
        let at = if keep.last() {
            before.push(n)
        } else {
            before
        };
        assert forall|j: int| 0 <= j < at.len() implies {
            &&& 0 <= #[trigger] at[j] < list.len()
            &&& keep[at[j]]
            &&& picked(list, keep)[j] == list[at[j]]
        } by {
            if j < before.len() {
                assert(at[j] == before[j]);
                assert(keep.drop_last()[before[j]]);
            }
        }
        assert forall|i: int, j: int| 0 <= i < j < at.len() implies #[trigger] at[i] < #[trigger] at[j] by {
            assert(at[i] == before[i]);
            if j < before.len() {
                assert(at[j] == before[j]);
            }
        }
        assert forall|k: int| 0 <= k < list.len() && #[trigger] keep[k] implies at.contains(k) by {
            if k < n {
                assert(keep.drop_last()[k]);
                let j = choose|j: int| 0 <= j < before.len() && before[j] == k;
                assert(at[j] == k);
            } else {
                assert(at[before.len() as int] == k);
            }
        }
        at
    }
}

/// The offsets are those of the blocks of `found`: living entities, each in a later slot than
/// the one before it, that the predicate holds of. Of the living entities that are left out it
/// does not hold.
pub open spec fn found_by<C: Components, P: Fn(Entity) -> bool>(
    s: &State<C>,
    pred: P,
    offsets: Seq<Offset>,
    found: Seq<Entity>,
) -> bool {
    &&& found.len() == offsets.len()
    &&& forall|j: int|
        0 <= j < found.len() ==> {
            &&& s.living().contains_key(#[trigger] found[j])
            &&& call_ensures(pred, (found[j],), true)
            &&& offsets[j] == s.living()[found[j]]
        }
    &&& forall|e: Entity|
        s.living().contains_key(e) && !(#[trigger] found.contains(e)) ==> call_ensures(
            pred,
            (e,),
            false,
        )
    &&& forall|i: int, j: int|
        0 <= i < j < found.len() ==> (#[trigger] found[i]).index() < (#[trigger] found[j]).index()
}

/// The vector of all which fulfill a predicate holds the place of the block of each living
/// entity that the predicate holds of, once and in the order of the entities' slots, and no
/// other place.
pub proof fn law_all_which_fulfill_are_found<C: Components, P: Fn(Entity) -> bool, A: Allocator>(
    s: &State<C>,
    pred: P,
    allocator: A,
    offsets: Vector<Offset, A>,
)
    requires
        s.wf(),
        call_ensures(
            State::<C>::all_which_fulfill::<P, A>,
            (s, pred, allocator),
            Ok::<Vector<Offset, A>, A::Error>(offsets),
        ),
    ensures
        exists|found: Seq<Entity>| #[trigger] found_by(s, pred, offsets@, found),
        offsets@.no_duplicates(),
{
    let list = s.living_list();
    let keep = choose|keep: Seq<bool>|
        {
            &&& #[trigger] answers(pred, list, keep)
            &&& offsets@ == picked(list, keep).map_values(|e: Entity| s.living()[e])
        };
    let found = picked(list, keep);
    let at = lemma_picked(list, keep);
    s.law_blocks_belong_to_the_living();
    assert forall|j: int| 0 <= j < found.len() implies {
        &&& s.living().contains_key(#[trigger] found[j])
        &&& call_ensures(pred, (found[j],), true)
        &&& offsets@[j] == s.living()[found[j]]
    } by {
        assert(found[j] == list[at[j]]);
        assert(list.to_set().contains(list[at[j]]));
        assert(keep[at[j]]);
    }
    assert forall|e: Entity|
        s.living().contains_key(e) && !(#[trigger] found.contains(e)) implies call_ensures(
        pred,
        (e,),
        false,
    ) by {
        assert(s.alive().contains(e));
        assert(list.to_set().contains(e));
        let k = choose|k: int| 0 <= k < list.len() && list[k] == e;
        if keep[k] {
            let j = choose|j: int| 0 <= j < at.len() && at[j] == k;
            assert(found[j] == e);
        }
        assert(!keep[k]);
    }
    assert forall|i: int, j: int| 0 <= i < j < found.len() implies (#[trigger] found[i]).index() < (
    #[trigger] found[j]).index() by {
        assert(found[i] == list[at[i]] && found[j] == list[at[j]]);
        assert(at[i] < at[j]);
        s.entities.law_iter_visits_in_order(at[i], at[j]);
    }
    assert(found_by(s, pred, offsets@, found));
    assert forall|i: int, j: int|
        0 <= i < offsets@.len() && 0 <= j < offsets@.len() && i != j implies offsets@[i]
        != offsets@[j] by {
        assert(found[i].index() != found[j].index()) by {
            if i < j {
                assert(found[i].index() < found[j].index());
            } else {
                assert(found[j].index() < found[i].index());
            }
        }
        assert(s.living().contains_key(found[i]) && s.living().contains_key(found[j]));
        assert(s.blocks()[s.living()[found[i]]].owner() == Some(found[i]));
        assert(s.blocks()[s.living()[found[j]]].owner() == Some(found[j]));
    }
}

/// A component can be set unless the entity lives, does not have it, and lacks the space: its
/// block has no free slot that is large enough, and no block of the least granularity that
/// holds a whole block as it is and the component besides can be had. `need` is the size of
/// the component, rounded up to the next multiple of the alignment.
pub proof fn law_components_can_be_set_while_there_is_room<C: Components>(
    s: &State<C>,
    e: Entity,
    id: ComponentId,
    r: bool,
    need: int,
)
    requires
        s.wf(),
        s.manages(id),
        need % 16 == 0,
        s.tables()[id].kind().size <= need < s.tables()[id].kind().size + 16,
        call_ensures(State::<C>::can_set, (s, e, id), r),
    ensures
        !s.alive().contains(e) || s.lookup(e, id) is Some || s.tables()[id].kind().size == 0 ==> r,
        s.alive().contains(e) && s.lookup(e, id) is None && 0 < s.tables()[id].kind().size ==> {
            let bytes = s.living()[e].granularity.bytes();
            r <==> {
                ||| exists|i: int|
                    0 <= i < s.free_slots(e).len() && (#[trigger] s.free_slots(e)[i]).size >= need
                ||| exists|h: Granularity|
                    {
                        &&& #[trigger] s.room(h)
                        &&& bytes + need <= h.bytes()
                        &&& forall|g: Granularity|
                            bytes + need <= #[trigger] g.bytes() ==> h.bytes() <= g.bytes()
                    }
            }
        },
        r == s.has_space_for(e, id),
{
    lemma_has_space(s, e, id, need);
}

// what it means that there is space for a component.
pub proof fn lemma_has_space<C: Components>(
    s: &State<C>,
    e: Entity,
    id: ComponentId,
    need: int,
)
    requires
        s.wf(),
        s.manages(id),
        need % 16 == 0,
        s.tables()[id].kind().size <= need < s.tables()[id].kind().size + 16,
    ensures
        !s.alive().contains(e) || s.lookup(e, id) is Some || s.tables()[id].kind().size == 0 ==> s.has_space_for(
            e,
            id,
        ),
        s.alive().contains(e) && s.lookup(e, id) is None && 0 < s.tables()[id].kind().size ==> {
            let bytes = s.living()[e].granularity.bytes();
            s.has_space_for(e, id) <==> {
                ||| exists|i: int|
                    0 <= i < s.free_slots(e).len() && (#[trigger] s.free_slots(e)[i]).size >= need
                ||| exists|h: Granularity|
                    {
                        &&& #[trigger] s.room(h)
                        &&& bytes + need <= h.bytes()
                        &&& forall|g: Granularity|
                            bytes + need <= #[trigger] g.bytes() ==> h.bytes() <= g.bytes()
                    }
            }
        },
{
    if s.alive().contains(e) && s.lookup(e, id) is None && 0 < s.tables()[id].kind().size {
        let granularity = s.living()[e].granularity;
        s.lemma_need(id, need);
        slots::law_first_fit_is_the_first(s.free_slots(e), need);
        block::lemma_promotion(granularity, need);
        if s.has_space_for(e, id) && !s.has_slot_for(e, id) {
            match block::promotion_for(granularity, need) {
                SlotError::NeedsPromote(h) => {
                    assert(s.room(h));
                },
                SlotError::TooBig => {},
            }
        }
        if exists|h: Granularity|
            {
                &&& #[trigger] s.room(h)
                &&& granularity.bytes() + need <= h.bytes()
                &&& forall|g: Granularity|
                    granularity.bytes() + need <= #[trigger] g.bytes() ==> h.bytes() <= g.bytes()
            } {
            let h = choose|h: Granularity|
                {
                    &&& #[trigger] s.room(h)
                    &&& granularity.bytes() + need <= h.bytes()
                    &&& forall|g: Granularity|
                        granularity.bytes() + need <= #[trigger] g.bytes() ==> h.bytes()
                            <= g.bytes()
                };
            match block::promotion_for(granularity, need) {
                SlotError::NeedsPromote(k) => {
                    assert(h.bytes() <= k.bytes() && k.bytes() <= h.bytes());
                    assert(h == k);
                },
                SlotError::TooBig => {},
            }
        }
    }
}

/// Setting a component: where the entity lacks it, its data goes to the start of the first
/// free slot that is large enough, and those bytes alone are no longer free. The entity keeps
/// its block unless no slot is large enough: then the block is promoted to the least granularity
/// that holds a whole block as it is and the component besides, and the bytes past the old
/// block are free too. Otherwise no byte is used up.
pub proof fn law_setting_uses_the_first_slot_that_fits<C: Components>(
    e: Entity,
    id: ComponentId,
    value: C::Value,
    need: int,
    r: Option<C::Value>,
)
    requires
        need % 16 == 0,
    ensures
        forall|s: &mut State<C>|
            s.wf() && s.manages(id) && s.has_space_for(e, id) && s.tables()[id].kind().size <= need
                < s.tables()[id].kind().size + 16 && #[trigger] call_ensures(
                State::<C>::set_component,
                (s, e, id, value),
                r,
            ) ==> {
                let lacks = s.alive().contains(e) && s.lookup(e, id) is None && 0
                    < s.tables()[id].kind().size;
                let fits = exists|i: int|
                    0 <= i < s.free_slots(e).len() && (#[trigger] s.free_slots(e)[i]).size >= need;
                let bytes = s.living()[e].granularity.bytes();
                let off = final(s).data_offset(e, id);
                let more = s.free_slots(e).push(
                    Slot {
                        off: bytes,
                        size: final(s).living()[e].granularity.bytes() - bytes,
                    },
                );
                &&& !lacks ==> final(s).living() == s.living() && final(s).free_slots(e)
                    == s.free_slots(e)
                &&& lacks && fits ==> {
                    &&& final(s).living() == s.living()
                    &&& starts_first(s.free_slots(e), need, off)
                    &&& forall|p: int| #[trigger]
                        slots::in_slots(final(s).free_slots(e), p) <==> slots::in_slots(
                            s.free_slots(e),
                            p,
                        ) && !(off <= p < off + need)
                }
                &&& lacks && !fits ==> {
                    let h = final(s).living()[e].granularity;
                    &&& bytes + need <= h.bytes()
                    &&& forall|g: Granularity|
                        bytes + need <= #[trigger] g.bytes() ==> h.bytes() <= g.bytes()
                    &&& starts_first(more, need, off)
                    &&& forall|p: int| #[trigger]
                        slots::in_slots(final(s).free_slots(e), p) <==> (slots::in_slots(
                            s.free_slots(e),
                            p,
                        ) || bytes <= p < h.bytes()) && !(off <= p < off + need)
                }
            },
{
    assert forall|s: &mut State<C>|
        s.wf() && s.manages(id) && s.has_space_for(e, id) && s.tables()[id].kind().size <= need
            < s.tables()[id].kind().size + 16 && #[trigger] call_ensures(
            State::<C>::set_component,
            (s, e, id, value),
            r,
        ) && s.alive().contains(e) && s.lookup(e, id) is None && 0 < s.tables()[id].kind().size implies {
        let fits = exists|i: int|
            0 <= i < s.free_slots(e).len() && (#[trigger] s.free_slots(e)[i]).size >= need;
        let bytes = s.living()[e].granularity.bytes();
        let off = final(s).data_offset(e, id);
        let more = s.free_slots(e).push(
            Slot { off: bytes, size: final(s).living()[e].granularity.bytes() - bytes },
        );
        &&& fits ==> {
            &&& final(s).living() == s.living()
            &&& starts_first(s.free_slots(e), need, off)
            &&& forall|p: int| #[trigger]
                slots::in_slots(final(s).free_slots(e), p) <==> slots::in_slots(s.free_slots(e), p)
                    && !(off <= p < off + need)
        }
        &&& !fits ==> {
            let h = final(s).living()[e].granularity;
            &&& bytes + need <= h.bytes()
            &&& forall|g: Granularity|
                bytes + need <= #[trigger] g.bytes() ==> h.bytes() <= g.bytes()
            &&& starts_first(more, need, off)
            &&& forall|p: int| #[trigger]
                slots::in_slots(final(s).free_slots(e), p) <==> (slots::in_slots(
                    s.free_slots(e),
                    p,
                ) || bytes <= p < h.bytes()) && !(off <= p < off + need)
        }
    } by {
        let free = s.free_slots(e);
        let granularity = s.living()[e].granularity;
        let bytes = granularity.bytes();
        let off = final(s).data_offset(e, id);
        s.lemma_need(id, need);
        s.lemma_placed(e, id);
        s.lemma_block_wf(s.living()[e]);
        s.blob.lemma_block(s.living()[e]);
        let b = s.blocks()[s.living()[e]];
        b.lemma_contents();
        assert(slots::slots_fit(free, bytes));
        slots::law_first_fit_is_the_first(free, need);
        block::lemma_promotion(granularity, need);
        let i = slots::first_fit(free, need, 0);
        if s.has_slot_for(e, id) {
            assert(free[i].size >= need);
            assert forall|p: int| #[trigger]
                slots::in_slots(final(s).free_slots(e), p) <==> slots::in_slots(free, p) && !(off
                    <= p < off + need) by {
                slots::lemma_take_covers(free, i, need, bytes, p);
            }
        } else {
            let h = final(s).living()[e].granularity;
            let extra = Slot { off: bytes, size: h.bytes() - bytes };
            let more = free.push(extra);
            slots::law_first_fit_is_the_first(more, need);
            let k = slots::first_fit(more, need, 0);
            assert(more[free.len() as int] == extra);
            assert(more[k].size >= need);
            assert(slots::slots_fit(free, h.bytes()));
            slots::lemma_push_fits(free, extra, h.bytes());
            assert forall|p: int| #[trigger]
                slots::in_slots(final(s).free_slots(e), p) <==> (slots::in_slots(free, p) || bytes
                    <= p < h.bytes()) && !(off <= p < off + need) by {
                slots::lemma_take_covers(more, k, need, h.bytes(), p);
                slots::lemma_push_covers(free, extra, p);
            }
        }
    }
}

/// The first slot that is large enough starts at `off`.
pub open spec fn starts_first(free: Seq<Slot>, need: int, off: int) -> bool {
    exists|i: int|
        {
            &&& 0 <= i < free.len()
            &&& (#[trigger] free[i]).off == off
            &&& free[i].size >= need
            &&& forall|j: int| 0 <= j < i ==> (#[trigger] free[j]).size < need
        }
}

/// Removing a component that takes up space in the entity's block frees the bytes that its data
/// lay in, and no others, and leaves no slot that ends where another begins. The entity keeps
/// its block.
pub proof fn law_removing_frees_the_bytes_of_the_data<C: Components>(
    e: Entity,
    id: ComponentId,
    need: int,
    r: Option<C::Value>,
)
    requires
        need % 16 == 0,
    ensures
        forall|s: &mut State<C>|
            s.wf() && s.manages(id) && s.tables()[id].kind().size <= need
                < s.tables()[id].kind().size + 16 && #[trigger] call_ensures(
                State::<C>::remove_component,
                (s, e, id),
                r,
            ) ==> {
                let off = s.data_offset(e, id);
                let taken = s.lookup(e, id) is Some && 0 < s.tables()[id].kind().size;
                &&& final(s).living() == s.living()
                &&& !taken ==> final(s).free_slots(e) == s.free_slots(e)
                &&& taken ==> {
                    &&& forall|p: int| #[trigger]
                        slots::in_slots(final(s).free_slots(e), p) <==> slots::in_slots(
                            s.free_slots(e),
                            p,
                        ) || off <= p < off + need
                    &&& forall|i: int, j: int|
                        0 <= i < final(s).free_slots(e).len() && 0 <= j < final(s).free_slots(
                            e).len() ==> (#[trigger] final(s).free_slots(e)[i]).off + final(
                            s).free_slots(e)[i].size != (#[trigger] final(s).free_slots(e)[j]).off
                }
            },
{
    assert forall|s: &mut State<C>|
        s.wf() && s.manages(id) && s.tables()[id].kind().size <= need < s.tables()[id].kind().size
            + 16 && #[trigger] call_ensures(State::<C>::remove_component, (s, e, id), r)
            && s.lookup(e, id) is Some && 0 < s.tables()[id].kind().size implies {
        let off = s.data_offset(e, id);
        let t = final(s).free_slots(e);
        &&& forall|p: int| #[trigger]
            slots::in_slots(t, p) <==> slots::in_slots(s.free_slots(e), p) || off <= p < off + need
        &&& forall|i: int, j: int|
            0 <= i < t.len() && 0 <= j < t.len() ==> (#[trigger] t[i]).off + t[i].size != (
            #[trigger] t[j]).off
    } by {
        let off = s.data_offset(e, id);
        let t = final(s).free_slots(e);
        let bytes = s.living()[e].granularity.bytes();
        s.lemma_need(id, need);
        assert(s.living().contains_key(e));
        s.lemma_placed(e, id);
        s.blob.lemma_block(s.living()[e]);
        let b = s.blocks()[s.living()[e]];
        b.lemma_contents();
        placement::lemma_released(s.free_slots(e), off, need, bytes);
        assert forall|i: int, j: int| 0 <= i < t.len() && 0 <= j < t.len() implies (
        #[trigger] t[i]).off + t[i].size != (#[trigger] t[j]).off by {
            if j > i + 1 {
                assert(t[i].off + t[i].size <= t[i + 1].off);
                assert(t[i + 1].off + t[i + 1].size <= t[j].off);
            } else if j < i {
                assert(t[j].off + t[j].size <= t[i].off);
            }
        }
    }
}

impl<C: Components> State<C> {
    // the bytes that a component takes up are its size, rounded up.
    proof fn lemma_need(&self, id: ComponentId, need: int)
        requires
            need % 16 == 0,
            0 < self.tables()[id].kind().size,
            self.tables()[id].kind().size <= need < self.tables()[id].kind().size + 16,
        ensures
            self.region(id) == need,
    {
        arith::lemma_round_up(self.tables()[id].kind().size, 16);
    }
}

/// As long as fewer entities were ever created than there are slots, another one can be created if
/// a small block can be had, and only then.
pub proof fn law_entities_can_be_created_while_there_is_room<C: Components>(s: &State<C>, r: bool)
    requires
        s.wf(),
        call_ensures(State::<C>::can_spawn, (s,), r),
    ensures
        s.history().len() < 0x100_0000 ==> r == s.room(Granularity::Small),
        r ==> s.room(Granularity::Small),
{
    s.entities.lemma_slots_were_used();
}

/// Setting or removing a component of an entity, or destroying the entity, leaves the other living
/// entities alone: they keep their blocks, with the same free slots, and their data.
pub proof fn law_other_entities_are_left_alone<C: Components>(
    e: Entity,
    id: ComponentId,
    value: C::Value,
    r: Option<C::Value>,
    x: Entity,
    i: ComponentId,
)
    requires
        x != e,
    ensures
        forall|s: &mut State<C>|
            s.alive().contains(x) && #[trigger] call_ensures(
                State::<C>::set_component,
                (s, e, id, value),
                r,
            ) ==> {
                &&& final(s).alive().contains(x)
                &&& final(s).living()[x] == s.living()[x]
                &&& final(s).free_slots(x) == s.free_slots(x)
                &&& final(s).lookup(x, i) == s.lookup(x, i)
            },
        forall|s: &mut State<C>|
            s.alive().contains(x) && #[trigger] call_ensures(
                State::<C>::remove_component,
                (s, e, id),
                r,
            ) ==> {
                &&& final(s).alive().contains(x)
                &&& final(s).living()[x] == s.living()[x]
                &&& final(s).free_slots(x) == s.free_slots(x)
                &&& final(s).lookup(x, i) == s.lookup(x, i)
            },
        forall|s: &mut State<C>|
            s.alive().contains(x) && #[trigger] call_ensures(
                State::<C>::destroy_entity,
                (s, e),
                (),
            ) ==> {
                &&& final(s).alive().contains(x)
                &&& final(s).living()[x] == s.living()[x]
                &&& final(s).free_slots(x) == s.free_slots(x)
                &&& final(s).lookup(x, i) == s.lookup(x, i)
            },
        forall|s: &mut State<C>|
            s.alive().contains(x) && #[trigger] call_ensures(State::<C>::next_entity, (s,), e)
                ==> {
                &&& final(s).alive().contains(x)
                &&& final(s).living()[x] == s.living()[x]
                &&& final(s).free_slots(x) == s.free_slots(x)
                &&& final(s).lookup(x, i) == s.lookup(x, i)
            },
{
}

/// Setting a component uses up a block only if the entity's block is promoted: as far as blocks of
/// another granularity could be had they still can.
pub proof fn law_setting_uses_up_one_block<C: Components>(
    e: Entity,
    id: ComponentId,
    value: C::Value,
    r: Option<C::Value>,
    g: Granularity,
)
    ensures
        forall|s: &mut State<C>|
            s.room(g) && #[trigger] call_ensures(
                State::<C>::set_component,
                (s, e, id, value),
                r,
            ) && (final(s).living()[e] == s.living()[e] || final(s).living()[e].granularity != g)
                ==> final(s).room(g),
{
}

/// Each living entity has a block in use, no two have the same, and no block is in use that none of
/// them has.
pub proof fn law_blocks_have_one_owner<C: Components>(
    s: &State<C>,
    e: Entity,
    x: Entity,
    o: Offset,
)
    requires
        s.wf(),
    ensures
        s.living().contains_key(e) ==> s.blocks().contains_key(s.living()[e]),
        s.living().contains_key(e) && s.living().contains_key(x) && e != x ==> s.living()[e]
            != s.living()[x],
        s.blocks().contains_key(o) ==> exists|owner: Entity| #[trigger]
            s.living().contains_key(owner) && s.living()[owner] == o,
{
    if s.living().contains_key(e) && s.living().contains_key(x) {
        assert(s.blocks()[s.living()[e]].owner() == Some(e));
        assert(s.blocks()[s.living()[x]].owner() == Some(x));
    }
    if s.blocks().contains_key(o) {
        assert(s.living().contains_key(s.blocks()[o].owner()->0));
    }
}

/// Each byte that a component of an entity takes up lies in the entity's block, is not free, and is
/// not taken up by another component. The data is aligned to 16 bytes.
pub proof fn law_each_byte_has_one_use<C: Components>(
    s: &State<C>,
    e: Entity,
    a: ComponentId,
    b: ComponentId,
    p: int,
)
    requires
        s.wf(),
        s.manages(a),
        s.manages(b),
        a != b,
        s.lookup(e, a) is Some,
        s.lookup(e, b) is Some,
        0 < s.tables()[a].kind().size,
        0 < s.tables()[b].kind().size,
        s.data_offset(e, a) <= p < s.data_offset(e, a) + s.tables()[a].kind().size,
    ensures
        s.data_offset(e, a) % 16 == 0,
        0 <= p < s.living()[e].granularity.bytes(),
        !slots::in_slots(s.free_slots(e), p),
        !(s.data_offset(e, b) <= p < s.data_offset(e, b) + s.tables()[b].kind().size),
{
    s.lemma_placed(e, a);
    s.lemma_placed(e, b);
    s.blob.lemma_block(s.living()[e]);
    s.law_data_never_overlaps(e, a, b);
    arith::lemma_round_up(s.tables()[a].kind().size, 16);
    arith::lemma_round_up(s.tables()[b].kind().size, 16);
}

/// What the world knows of its components never changes.
pub proof fn law_kinds_never_change<C: Components>(
    e: Entity,
    id: ComponentId,
    value: C::Value,
    r: Option<C::Value>,
    i: ComponentId,
)
    ensures
        forall|s: &mut State<C>| #[trigger]
            call_ensures(State::<C>::set_component, (s, e, id, value), r) ==> {
                &&& final(s).manages(i) == s.manages(i)
                &&& s.manages(i) ==> final(s).tables()[i].kind() == s.tables()[i].kind()
            },
        forall|s: &mut State<C>| #[trigger]
            call_ensures(State::<C>::remove_component, (s, e, id), r) ==> {
                &&& final(s).manages(i) == s.manages(i)
                &&& s.manages(i) ==> final(s).tables()[i].kind() == s.tables()[i].kind()
            },
        forall|s: &mut State<C>| #[trigger]
            call_ensures(State::<C>::destroy_entity, (s, e), ()) ==> {
                &&& final(s).manages(i) == s.manages(i)
                &&& s.manages(i) ==> final(s).tables()[i].kind() == s.tables()[i].kind()
            },
{
    assert forall|s: &mut State<C>| #[trigger]
        call_ensures(State::<C>::set_component, (s, e, id, value), r) implies final(s).manages(i)
        == s.manages(i) by {
        assert(final(s).tables().dom().contains(i) == s.tables().dom().contains(i));
    }
    assert forall|s: &mut State<C>| #[trigger]
        call_ensures(State::<C>::remove_component, (s, e, id), r) implies final(s).manages(i)
        == s.manages(i) by {
        assert(final(s).tables().dom().contains(i) == s.tables().dom().contains(i));
    }
    assert forall|s: &mut State<C>| #[trigger]
        call_ensures(State::<C>::destroy_entity, (s, e), ()) implies final(s).manages(i)
        == s.manages(i) by {
        assert(final(s).tables().dom().contains(i) == s.tables().dom().contains(i));
    }
}

} // verus!
