//! Entities, and their creation and destruction.

use std::collections::VecDeque;
use vstd::prelude::*;
use super::block::{Granularity, Offset};
use crate::util::hex;
use crate::util::hex::to_hex;

verus! {

/// The number of generations that an index goes through before they repeat: eight bits of
/// the id are used for the generation.
pub const GENERATIONS: u32 = 256;

/// The number of indices: it's enough to use 32 bit integers for all entities.
pub const MAX_ENTITIES: u32 = 0x100_0000;

/// The minimum amount of entities which must be marked as dead before
/// beginning to recycle indices. Coupled with the bits which mark the generation
/// of an entity, a user must spawn at least `MIN_UNUSED * GENERATIONS` entities
/// before an exact entity will resurface.
pub const MIN_UNUSED: usize = 1024;

/// An unique entity.
/// Entities each have a unique id which serves
/// as a weak pointer to the entity.
#[derive(Clone, Copy, Debug, PartialEq, Eq, Hash, PartialOrd, Ord, Structural)]
pub struct Entity {
    id: u32,
}

impl Entity {
    /// The number that stands for the entity.
    pub closed spec fn spec_id(self) -> u32 {
        self.id
    }

    /// The slot that the entity lives in.
    pub open spec fn index(self) -> int {
        self.spec_id() as int % MAX_ENTITIES as int
    }

    /// The generation of the slot that the entity belongs to.
    pub open spec fn generation(self) -> int {
        self.spec_id() as int / MAX_ENTITIES as int
    }

    /// The entity of the given generation in the given slot.
    pub fn new(index: u32, gen: u8) -> (e: Entity)
        requires
            index < MAX_ENTITIES,
        ensures
            e.index() == index,
            e.generation() == gen,
    {
        Entity { id: gen as u32 * MAX_ENTITIES + index }
    }

    /// The number that stands for the entity.
    pub fn id(&self) -> (r: u32)
        ensures
            r == self.spec_id(),
    {
        self.id
    }

    /// The entity as a text: its number in hexadecimal.
    pub fn display(&self) -> (r: String)
        ensures
            r@ == hex::hex(self.spec_id() as nat),
    {
        to_hex(self.id)
    }

    /// The entity that a number stands for.
    pub fn from_id(id: u32) -> (e: Entity)
        ensures
            e.spec_id() == id,
    {
        Entity { id }
    }
}

/// An entity is known by its id, and by its slot and generation.
pub proof fn lemma_entity_ext(a: Entity, b: Entity)
    ensures
        a.spec_id() == b.spec_id() ==> a == b,
        a.index() == b.index() && a.generation() == b.generation() ==> a == b,
        0 <= a.index() < MAX_ENTITIES,
        0 <= a.generation() < GENERATIONS,
{
}

/// The entity of the given generation in the given slot.
pub closed spec fn entity_at(index: int, generation: int) -> Entity {
    Entity { id: (generation * MAX_ENTITIES + index) as u32 }
}

/// An entity is the one of its generation in its slot.
pub proof fn lemma_entity_at(e: Entity)
    ensures
        entity_at(e.index(), e.generation()) == e,
{
}

/// What the names of new entities depend on.
#[verifier::ext_equal]
pub struct Names {
    /// The generation that each slot is in; of a slot that waits for reuse, the generation of
    /// its next entity.
    pub generations: Seq<int>,
    /// The slots that wait for reuse, the one to be reused first in front.
    pub waiting: Seq<usize>,
    /// All entities that were ever created, in order.
    pub history: Seq<Entity>,
}

impl Names {
    /// How many of the next `n` entities get a slot that waits for reuse.
    pub open spec fn reused(self, n: int) -> int {
        if self.waiting.len() <= MIN_UNUSED {
            0
        } else if n <= self.waiting.len() - MIN_UNUSED {
            n
        } else {
            self.waiting.len() - MIN_UNUSED
        }
    }

    /// The next `n` entities, if none is destroyed meanwhile.
    pub open spec fn upcoming(self, n: nat) -> Seq<Entity> {
        Seq::new(
            n,
            |k: int|
                if k < self.reused(n as int) {
                    entity_at(self.waiting[k] as int, self.generations[self.waiting[k] as int])
                } else {
                    entity_at(self.generations.len() + k - self.reused(n as int), 0)
                },
        )
    }

    /// Once the next `n` entities have been created.
    pub open spec fn created(self, n: nat) -> Names {
        let reused = self.reused(n as int);
        Names {
            generations: self.generations + Seq::new((n - reused) as nat, |k: int| 0int),
            waiting: self.waiting.skip(reused),
            history: self.history + self.upcoming(n),
        }
    }

    /// The slots that wait for reuse are there.
    pub open spec fn valid(self) -> bool {
        forall|k: int|
            0 <= k < self.waiting.len() ==> (#[trigger] self.waiting[k]) < self.generations.len()
    }

    /// Creating no entity changes nothing.
    pub proof fn law_no_entity_changes_nothing(self)
        ensures
            self.upcoming(0).len() == 0,
            self.created(0) == self,
    {
        assert(self.created(0) =~= self);
    }

    /// Entities get the same names, whether they are created all at once or bit by bit.
    pub proof fn law_entities_can_be_created_bit_by_bit(self, a: nat, b: nat)
        requires
            self.valid(),
        ensures
            self.upcoming(a + b) == self.upcoming(a) + self.created(a).upcoming(b),
            self.created(a + b) == self.created(a).created(b),
    {
        let between = self.created(a);
        let all = self.upcoming(a + b);
        let parts = self.upcoming(a) + between.upcoming(b);
        assert(all.len() == parts.len());
        assert forall|k: int| 0 <= k < a + b implies #[trigger] all[k] == parts[k] by {
            if k >= a {
                assert(parts[k] == between.upcoming(b)[k - a]);
                if k - a < between.reused(b as int) {
                    assert(between.waiting[k - a] == self.waiting[k]);
                    assert(self.waiting[k] < self.generations.len());
                }
            }
        }
        assert(all =~= parts);
        assert(self.created(a + b) =~= between.created(b));
    }

    /// Once the entity has been destroyed.
    pub open spec fn destroyed(self, e: Entity) -> Names {
        Names {
            generations: self.generations.update(e.index(), (e.generation() + 1) % 256),
            waiting: self.waiting.push(e.index() as usize),
            history: self.history,
        }
    }
}

/// The slot that the entity lives in.
pub fn index_of(e: Entity) -> (r: u32)
    ensures
        r == e.index(),
        r < MAX_ENTITIES,
{
    e.id % MAX_ENTITIES
}

/// The generation of the slot that the entity belongs to.
pub fn generation_of(e: Entity) -> (r: u8)
    ensures
        r == e.generation(),
{
    (e.id / MAX_ENTITIES) as u8
}

// data associated with an entity slot.
struct EntityData {
    alive: bool,
    gen: u8,
    granularity: Granularity,
    inner_off: usize,
}

/// How many of the first `n` entities of a list are in the given slot.
pub open spec fn uses(history: Seq<Entity>, index: int, n: int) -> int
    decreases n,
{
    if n <= 0 {
        0
    } else {
        uses(history, index, n - 1) + if history[n - 1].index() == index {
            1int
        } else {
            0int
        }
    }
}

/// The number of entities that are created at least between two uses of a slot, once it was
/// reused.
pub open spec fn spacing() -> int {
    MIN_UNUSED + 1
}

/// Two uses of a slot are far apart, but for the first two.
#[verifier::opaque]
pub open spec fn spaced(history: Seq<Entity>) -> bool {
    forall|j: int, k: int|
        #![trigger history[j], history[k]]
        0 <= j < k < history.len() && history[j].index() == history[k].index() && 1 <= uses(
            history,
            history[j].index(),
            j,
        ) ==> k - j >= spacing()
}

/// Each entity is of the generation that says how often its slot had been used.
#[verifier::opaque]
pub open spec fn numbered(history: Seq<Entity>) -> bool {
    forall|k: int|
        0 <= k < history.len() ==> (#[trigger] history[k]).generation() == uses(
            history,
            history[k].index(),
            k,
        ) % 256
}

// how many entities must have been created before a slot can be used again, `ahead` more
// of them included.
#[verifier::opaque]
spec fn due_in(past: Seq<Entity>, index: int, ahead: int) -> bool {
    let n = past.len() + ahead;
    let used = uses(past, index, past.len() as int);
    &&& 1 < used ==> n >= spacing() * (used - 1) + MIN_UNUSED
    &&& forall|j: int|
        0 <= j < past.len() && (#[trigger] past[j]).index() == index && 1 <= uses(past, index, j)
            ==> n - j >= spacing()
}

/// Manages the creation and destruction of entities.
pub struct EntityManager {
    data: Vec<EntityData>,
    unused: VecDeque<usize>,
    // all entities that were ever created, in order.
    past: Ghost<Seq<Entity>>,
}

// the living entities from slot `i` on.
spec fn living_from(data: Seq<EntityData>, i: int) -> Seq<Entity>
    decreases data.len() - i,
{
    if i >= data.len() {
        Seq::empty()
    } else if data[i].alive {
        seq![occupant(data, i)] + living_from(data, i + 1)
    } else {
        living_from(data, i + 1)
    }
}

// the entity of the current generation in slot `i`.
spec fn occupant(data: Seq<EntityData>, i: int) -> Entity {
    Entity { id: (data[i].gen * MAX_ENTITIES + i) as u32 }
}

impl EntityManager {
    /// The living entities, with the places of their blocks.
    pub closed spec fn living(&self) -> Map<Entity, Offset> {
        Map::new(
            |e: Entity|
                {
                    &&& e.index() < self.data@.len()
                    &&& self.data@[e.index()].alive
                    &&& self.data@[e.index()].gen == e.generation()
                },
            |e: Entity|
                Offset {
                    granularity: self.data@[e.index()].granularity,
                    inner_off: self.data@[e.index()].inner_off,
                },
        )
    }

    /// The number of slots.
    pub closed spec fn slots(&self) -> nat {
        self.data@.len()
    }

    /// The slots that wait for reuse, the one to be reused first in front.
    pub closed spec fn waiting(&self) -> Seq<usize> {
        self.unused@
    }

    /// The generation that a slot is in; of a slot that waits for reuse, the
    /// generation of its next entity.
    pub closed spec fn slot_generation(&self, index: int) -> int {
        self.data@[index].gen as int
    }

    /// All entities that were ever created, in order.
    pub closed spec fn history(&self) -> Seq<Entity> {
        self.past@
    }

    /// What the names of new entities depend on.
    pub open spec fn names(&self) -> Names {
        Names {
            generations: Seq::new(self.slots(), |i: int| self.slot_generation(i)),
            waiting: self.waiting(),
            history: self.history(),
        }
    }

    /// The living entities by slot.
    pub closed spec fn living_list(&self) -> Seq<Entity> {
        living_from(self.data@, 0)
    }

    /// Whether another entity can be created: a slot is to be reused, or there
    /// is an index for a new one.
    pub open spec fn has_room(&self) -> bool {
        MIN_UNUSED < self.waiting().len() || self.slots() < MAX_ENTITIES
    }

    /// The number of entities that can be created before another one is destroyed.
    pub open spec fn spec_room(&self) -> int {
        MAX_ENTITIES - self.slots() + self.reused(self.waiting().len() as int)
    }

    /// How many of the next `n` entities get a slot that waits for reuse.
    pub open spec fn reused(&self, n: int) -> int {
        self.names().reused(n)
    }

    // how often a slot was used.
    spec fn used(&self, index: int) -> int {
        uses(self.past@, index, self.past@.len() as int)
    }

    // enough entities were created for the slot, `ahead` more of them included.
    spec fn due(&self, index: int, ahead: int) -> bool {
        due_in(self.past@, index, ahead)
    }

    /// The dead slots are those that wait for reuse.
    pub closed spec fn wf(&self) -> bool {
        &&& self.data@.len() <= MAX_ENTITIES
        &&& self.unused@.no_duplicates()
        &&& forall|k: int|
            0 <= k < self.unused@.len() ==> {
                &&& (#[trigger] self.unused@[k]) < self.data@.len()
                &&& !self.data@[self.unused@[k] as int].alive
                &&& self.due(self.unused@[k] as int, k)
            }
        &&& forall|i: int|
            0 <= i < self.data@.len() && !(#[trigger] self.data@[i]).alive
                ==> self.unused@.contains(i as usize)
        &&& forall|i: int|
            0 <= i < self.data@.len() && (#[trigger] self.data@[i]).alive ==> self.due(
                i,
                self.unused@.len() as int,
            )
        &&& forall|i: int|
            0 <= i < self.data@.len() ==> {
                &&& 1 <= self.used(i)
                &&& (#[trigger] self.data@[i]).gen == (self.used(i) - if self.data@[i].alive {
                    1int
                } else {
                    0int
                }) % 256
            }
        &&& self.data@.len() <= self.past@.len()
        &&& forall|k: int|
            0 <= k < self.past@.len() ==> (#[trigger] self.past@[k]).index() < self.data@.len()
        &&& numbered(self.past@)
        &&& spaced(self.past@)
    }

    /// Create a new entity manager.
    pub fn new() -> (r: EntityManager)
        ensures
            r.wf(),
            r.living() == Map::<Entity, Offset>::empty(),
            r.slots() == 0,
            r.waiting().len() == 0,
            r.history().len() == 0,
    {
        let r = EntityManager {
            data: Vec::new(),
            unused: VecDeque::with_capacity(MIN_UNUSED + 1),
            past: Ghost(Seq::empty()),
        };
        proof {
            reveal(numbered);
            reveal(spaced);
            assert(r.living() =~= Map::<Entity, Offset>::empty());
        }
        r
    }

    /// Creates an entity, provided with the offset of its block.
    ///
    /// An exact entity resurfaces only after many others were created.
    #[verifier::spinoff_prover]
    pub fn next_entity(&mut self, offset: Offset) -> (e: Entity)
        requires
            old(self).wf(),
            old(self).has_room(),
        ensures
            final(self).wf(),
            !old(self).living().contains_key(e),
            final(self).living() == old(self).living().insert(e, offset),
            if old(self).waiting().len() <= MIN_UNUSED {
                &&& e.index() == old(self).slots()
                &&& e.generation() == 0
                &&& final(self).slots() == old(self).slots() + 1
                &&& final(self).waiting() == old(self).waiting()
            } else {
                &&& e.index() == old(self).waiting()[0]
                &&& e.generation() == old(self).slot_generation(e.index())
                &&& final(self).slots() == old(self).slots()
                &&& final(self).waiting() == old(self).waiting().drop_first()
            },
            forall|i: int|
                0 <= i < old(self).slots() ==> #[trigger] final(self).slot_generation(i) == old(
                    self,
                ).slot_generation(i),
            final(self).slot_generation(e.index()) == e.generation(),
            final(self).history() == old(self).history().push(e),
            old(self).history().contains(e) ==> MIN_UNUSED * GENERATIONS <= old(
                self,
            ).history().len(),
            forall|k: int|
                0 <= k < old(self).history().len() && #[trigger] old(self).history()[k] == e ==> old(
                    self,
                ).history().len() - k > 255 * spacing(),
    {
        let (granularity, inner_off) = offset.into_parts();
        if self.unused.len() <= MIN_UNUSED {
            let idx: usize = self.data.len();
            self.data.push(EntityData { alive: true, gen: 0, granularity, inner_off });
            let e = Entity::new(idx as u32, 0);
            proof {
                let past = self.past@;
                let n = past.len() as int;
                self.past = Ghost(past.push(e));
                lemma_uses_none(past, idx as int, n);
                lemma_uses_push(past, e);
                assert forall|k: int| 0 <= k < self.unused@.len() implies {
                    &&& (#[trigger] self.unused@[k]) < self.data@.len()
                    &&& !self.data@[self.unused@[k] as int].alive
                    &&& self.due(self.unused@[k] as int, k)
                } by {
                    old(self).lemma_due_later(self, old(self).unused@[k] as int, k, k);
                }
                assert forall|i: int|
                    0 <= i < self.data@.len() && (#[trigger] self.data@[i]).alive implies self.due(
                    i,
                    self.unused@.len() as int,
                ) by {
                    if i < idx {
                        assert(old(self).data@[i].alive);
                        old(self).lemma_due_later(
                            self,
                            i,
                            self.unused@.len() as int,
                            self.unused@.len() as int,
                        );
                    } else {
                        reveal(due_in);
                    }
                }
                assert forall|i: int| 0 <= i < self.data@.len() implies {
                    &&& 1 <= self.used(i)
                    &&& (#[trigger] self.data@[i]).gen == (self.used(i) - if self.data@[i].alive {
                        1int
                    } else {
                        0int
                    }) % 256
                } by {
                    if i < idx {
                        assert(old(self).data@[i] == self.data@[i]);
                    }
                }
                lemma_created(past, e);
            }
            e
        } else {
            let idx: usize = self.unused.pop_front().unwrap();
            assert(old(self).unused@[0] == idx);
            assert(old(self).data@[idx as int].alive == false);
            let gen: u8 = self.data[idx].gen;
            self.data.set(idx, EntityData { alive: true, gen, granularity, inner_off });
            let e = Entity::new(idx as u32, gen);
            proof {
                let past = self.past@;
                let n = past.len() as int;
                self.past = Ghost(past.push(e));
                assert(old(self).due(idx as int, 0));
                assert(forall|j: int|
                    0 <= j < past.len() && (#[trigger] past[j]).index() == e.index() && 1 <= uses(
                        past,
                        e.index(),
                        j,
                    ) ==> past.len() - j >= spacing()) by {
                    reveal(due_in);
                }
                lemma_uses_push(past, e);
                lemma_created(past, e);
                lemma_distinct_below(old(self).unused@, old(self).data@.len());
                assert(old(self).history().contains(e) ==> MIN_UNUSED * GENERATIONS <= n) by {
                    reveal(due_in);
                    if past.contains(e) {
                        let k = choose|k: int| 0 <= k < past.len() && past[k] == e;
                        assert(past[k] == e);
                        lemma_spacing(old(self).used(idx as int) - 1, 255);
                    }
                }
                assert forall|k: int| 0 <= k < self.unused@.len() implies {
                    &&& (#[trigger] self.unused@[k]) < self.data@.len()
                    &&& !self.data@[self.unused@[k] as int].alive
                    &&& self.due(self.unused@[k] as int, k)
                } by {
                    assert(self.unused@[k] == old(self).unused@[k + 1]);
                    assert(old(self).unused@[0] != old(self).unused@[k + 1]);
                    old(self).lemma_due_later(self, self.unused@[k] as int, k + 1, k);
                }
                assert forall|i: int|
                    0 <= i < self.data@.len() && !(#[trigger] self.data@[i]).alive
                        implies self.unused@.contains(i as usize) by {
                    assert(!old(self).data@[i].alive);
                    let k = choose|k: int|
                        0 <= k < old(self).unused@.len() && old(self).unused@[k] == i as usize;
                    assert(self.unused@[k - 1] == i as usize);
                }
                assert forall|i: int|
                    0 <= i < self.data@.len() && (#[trigger] self.data@[i]).alive implies self.due(
                    i,
                    self.unused@.len() as int,
                ) by {
                    if i != idx {
                        assert(old(self).data@[i].alive);
                        old(self).lemma_due_later(
                            self,
                            i,
                            old(self).unused@.len() as int,
                            self.unused@.len() as int,
                        );
                    } else {
                        let used = old(self).used(i);
                        assert(self.used(i) == used + 1);
                        assert(spacing() * used == spacing() * (used - 1) + spacing())
                            by (nonlinear_arith);
                        assert(used == 1 ==> spacing() * (used - 1) == 0) by (nonlinear_arith);
                        reveal(due_in);
                    }
                }
                assert forall|i: int| 0 <= i < self.data@.len() implies {
                    &&& 1 <= self.used(i)
                    &&& (#[trigger] self.data@[i]).gen == (self.used(i) - if self.data@[i].alive {
                        1int
                    } else {
                        0int
                    }) % 256
                } by {
                    assert(1 <= old(self).used(i)) by {
                        assert(old(self).data@[i].gen == old(self).data@[i].gen);
                    }
                    if i != idx {
                        assert(old(self).data@[i] == self.data@[i]);
                    }
                }
            }
            e
        }
    }

    // what a slot waits for has not changed, except that another entity was created.
    proof fn lemma_due_later(&self, after: &EntityManager, index: int, ahead: int, ahead2: int)
        requires
            self.due(index, ahead),
            after.past@.len() == self.past@.len() + 1,
            after.past@ == self.past@.push(after.past@.last()),
            after.past@.last().index() != index,
            ahead <= ahead2 + 1,
        ensures
            after.due(index, ahead2),
    {
        reveal(due_in);
        lemma_uses_push(self.past@, after.past@.last());
        assert forall|j: int|
            0 <= j < after.past@.len() && (#[trigger] after.past@[j]).index() == index && 1 <= uses(
                after.past@,
                index,
                j,
            ) implies after.past@.len() + ahead2 - j >= spacing() by {
            assert(after.past@[j] == self.past@[j]);
        }
    }

    /// Creates `n` entities that own no block.
    pub fn next_entities(&mut self, n: usize) -> (r: Vec<Entity>)
        requires
            old(self).wf(),
            n <= old(self).spec_room(),
        ensures
            final(self).wf(),
            r@.len() == n,
            r@.no_duplicates(),
            forall|k: int| 0 <= k < n ==> !old(self).living().contains_key(#[trigger] r@[k]),
            final(self).living() == old(self).living().union_prefer_right(
                Map::new(|e: Entity| r@.contains(e), |e: Entity| no_block()),
            ),
            final(self).history() == old(self).history() + r@,
            final(self).spec_room() == old(self).spec_room() - n,
            ({
                let reused = old(self).reused(n as int);
                &&& final(self).waiting() == old(self).waiting().skip(reused)
                &&& final(self).slots() == old(self).slots() + n - reused
                &&& forall|k: int|
                    0 <= k < reused ==> {
                        &&& (#[trigger] r@[k]).index() == old(self).waiting()[k]
                        &&& r@[k].generation() == old(self).slot_generation(r@[k].index())
                    }
                &&& forall|k: int|
                    reused <= k < n ==> {
                        &&& (#[trigger] r@[k]).index() == old(self).slots() + k - reused
                        &&& r@[k].generation() == 0
                    }
            }),
            forall|i: int|
                0 <= i < old(self).slots() ==> #[trigger] final(self).slot_generation(i) == old(
                    self,
                ).slot_generation(i),
            r@ == old(self).names().upcoming(n as nat),
            final(self).names() == old(self).names().created(n as nat),
    {
        let mut r: Vec<Entity> = Vec::with_capacity(n);
        let mut i: usize = 0;
        proof {
            assert(self.living() =~= old(self).living().union_prefer_right(
                Map::new(|e: Entity| r@.contains(e), |e: Entity| no_block()),
            ));
            assert(self.waiting() =~= old(self).waiting().skip(0));
        }
        while i < n
            invariant
                i <= n,
                self.wf(),
                old(self).wf(),
                n <= old(self).spec_room(),
                r@.len() == i,
                r@.no_duplicates(),
                forall|k: int| 0 <= k < i ==> !old(self).living().contains_key(#[trigger] r@[k]),
                self.living() == old(self).living().union_prefer_right(
                    Map::new(|e: Entity| r@.contains(e), |e: Entity| no_block()),
                ),
                self.history() == old(self).history() + r@,
                self.waiting() == old(self).waiting().skip(old(self).reused(i as int)),
                self.slots() == old(self).slots() + i - old(self).reused(i as int),
                forall|k: int|
                    0 <= k < old(self).reused(i as int) ==> {
                        &&& (#[trigger] r@[k]).index() == old(self).waiting()[k]
                        &&& r@[k].generation() == old(self).slot_generation(r@[k].index())
                    },
                forall|k: int|
                    old(self).reused(i as int) <= k < i ==> {
                        &&& (#[trigger] r@[k]).index() == old(self).slots() + k - old(self).reused(
                            i as int,
                        )
                        &&& r@[k].generation() == 0
                    },
                forall|k: int|
                    0 <= k < old(self).slots() ==> #[trigger] self.slot_generation(k) == old(
                        self,
                    ).slot_generation(k),
                forall|k: int|
                    old(self).slots() <= k < self.slots() ==> #[trigger] self.slot_generation(k)
                        == 0,
            decreases n - i,
        {
            let ghost before = r@;
            let ghost living = self.living();
            let ghost done = old(self).reused(i as int);
            proof {
                old(self).lemma_waiting();
                if 0 < self.waiting().len() {
                    assert(self.waiting()[0] == old(self).waiting()[done]);
                }
            }
            let e = self.next_entity(Offset::new(Granularity::Small, 0));
            r.push(e);
            i = i + 1;
            proof {
                assert(!living.contains_key(e));
                if before.contains(e) {
                    assert(living.contains_key(e));
                }
                assert(r@[before.len() as int] == e);
                assert forall|x: Entity| r@.contains(x) == (before.contains(x) || x == e) by {
                    if before.contains(x) {
                        let k = choose|k: int| 0 <= k < before.len() && before[k] == x;
                        assert(r@[k] == x);
                    }
                }
                assert(self.living() =~= old(self).living().union_prefer_right(
                    Map::new(|e: Entity| r@.contains(e), |e: Entity| no_block()),
                ));
                assert(self.history() =~= old(self).history() + r@);
                assert(self.waiting() =~= old(self).waiting().skip(old(self).reused(i as int)));
            }
        }
        proof {
            old(self).lemma_waiting();
            let names = old(self).names();
            assert forall|k: int| 0 <= k < n implies r@[k] == #[trigger] names.upcoming(
                n as nat,
            )[k] by {
                lemma_entity_at(r@[k]);
                if k < names.reused(n as int) {
                    assert(names.generations[r@[k].index()] == r@[k].generation());
                }
            }
            assert(r@ =~= names.upcoming(n as nat));
            assert(self.names() =~= names.created(n as nat));
        }
        r
    }

    /// Whether an entity is currently "alive", or exists.
    pub fn is_alive(&self, e: Entity) -> (r: bool)
        ensures
            r == self.living().contains_key(e),
    {
        let idx: usize = index_of(e) as usize;
        idx < self.data.len() && self.data[idx].alive && self.data[idx].gen == generation_of(e)
    }

    /// The place of a living entity's block.
    pub fn offset_of(&self, e: Entity) -> (r: Option<Offset>)
        ensures
            match r {
                Some(offset) => self.living().contains_key(e) && offset == self.living()[e],
                None => !self.living().contains_key(e),
            },
    {
        if self.is_alive(e) {
            let datum = &self.data[index_of(e) as usize];
            Some(Offset::new(datum.granularity, datum.inner_off))
        } else {
            None
        }
    }

    /// Notes the new place of a living entity's block.
    pub fn set_offset(&mut self, e: Entity, offset: Offset)
        requires
            old(self).wf(),
            old(self).living().contains_key(e),
        ensures
            final(self).wf(),
            final(self).living() == old(self).living().insert(e, offset),
            final(self).slots() == old(self).slots(),
            final(self).waiting() == old(self).waiting(),
            forall|i: int|
                0 <= i < old(self).slots() ==> #[trigger] final(self).slot_generation(i) == old(
                    self,
                ).slot_generation(i),
            final(self).history() == old(self).history(),
    {
        let idx: usize = index_of(e) as usize;
        let (granularity, inner_off) = offset.into_parts();
        let gen: u8 = self.data[idx].gen;
        self.data.set(idx, EntityData { alive: true, gen, granularity, inner_off });
        proof {
            assert(old(self).data@[idx as int].alive);
            assert forall|k: int| 0 <= k < self.unused@.len() implies {
                &&& (#[trigger] self.unused@[k]) < self.data@.len()
                &&& !self.data@[self.unused@[k] as int].alive
                &&& self.due(self.unused@[k] as int, k)
            } by {
                assert(old(self).due(old(self).unused@[k] as int, k));
            }
            assert forall|i: int|
                0 <= i < self.data@.len() && (#[trigger] self.data@[i]).alive implies self.due(
                i,
                self.unused@.len() as int,
            ) by {
                assert(old(self).data@[i].alive);
            }
            assert forall|x: Entity| x.index() == idx && x.generation() == gen implies x == e by {
                lemma_entity_ext(x, e);
            }
            assert(self.living() =~= old(self).living().insert(e, offset));
            assert(self.history() =~= old(self).history());
        }
    }

    /// Destroy an entity. The entity must be alive when this
    /// is called.
    pub fn destroy_entity(&mut self, e: Entity)
        requires
            old(self).wf(),
            old(self).living().contains_key(e),
        ensures
            final(self).wf(),
            final(self).living() == old(self).living().remove(e),
            final(self).slots() == old(self).slots(),
            final(self).waiting() == old(self).waiting().push(e.index() as usize),
            final(self).slot_generation(e.index()) == (e.generation() + 1) % 256,
            forall|i: int|
                0 <= i < old(self).slots() && i != e.index()
                    ==> #[trigger] final(self).slot_generation(i) == old(self).slot_generation(i),
            final(self).history() == old(self).history(),
            final(self).names() == old(self).names().destroyed(e),
    {
        let idx: usize = index_of(e) as usize;
        let granularity = self.data[idx].granularity;
        let inner_off: usize = self.data[idx].inner_off;
        let gen: u8 = self.data[idx].gen.wrapping_add(1);
        self.data.set(idx, EntityData { alive: false, gen, granularity, inner_off });
        self.unused.push_back(idx);
        proof {
            let n = old(self).unused@.len() as int;
            assert(old(self).data@[idx as int].alive);
            assert(self.unused@[n] == idx);
            assert(old(self).due(idx as int, n));
            assert forall|k: int| 0 <= k < self.unused@.len() implies {
                &&& (#[trigger] self.unused@[k]) < self.data@.len()
                &&& !self.data@[self.unused@[k] as int].alive
                &&& self.due(self.unused@[k] as int, k)
            } by {
                if k < n {
                    assert(old(self).due(old(self).unused@[k] as int, k));
                }
            }
            assert forall|i: int|
                0 <= i < self.data@.len() && !(#[trigger] self.data@[i]).alive
                    implies self.unused@.contains(i as usize) by {
                if i != idx {
                    assert(!old(self).data@[i].alive);
                    let k = choose|k: int|
                        0 <= k < old(self).unused@.len() && old(self).unused@[k] == i as usize;
                    assert(self.unused@[k] == i as usize);
                }
            }
            assert forall|i: int|
                0 <= i < self.data@.len() && (#[trigger] self.data@[i]).alive implies self.due(
                i,
                self.unused@.len() as int,
            ) by {
                assert(old(self).data@[i].alive);
                lemma_due_more(self.past@, i, n, n + 1);
            }
            assert forall|x: Entity| x.index() == idx && x.generation() == e.generation() implies x == e by {
                lemma_entity_ext(x, e);
            }
            assert(self.living() =~= old(self).living().remove(e));
            assert(self.history() =~= old(self).history());
            lemma_entity_ext(e, e);
            assert(self.names() =~= old(self).names().destroyed(e));
        }
    }

    /// Whether another entity can be created.
    pub fn can_spawn(&self) -> (r: bool)
        ensures
            r == self.has_room(),
    {
        MIN_UNUSED < self.unused.len() || self.data.len() < MAX_ENTITIES as usize
    }

    /// The number of entities that can be created before another one is destroyed.
    pub fn room(&self) -> (r: usize)
        requires
            self.wf(),
        ensures
            r == self.spec_room(),
    {
        let fresh: usize = MAX_ENTITIES as usize - self.data.len();
        if self.unused.len() <= MIN_UNUSED {
            fresh
        } else {
            proof {
                self.lemma_waiting();
                lemma_distinct_below(self.unused@, self.data@.len());
            }
            fresh + (self.unused.len() - MIN_UNUSED)
        }
    }

    /// Get an upper bound on the number of entities which could be live.
    pub fn size_hint(&self) -> (r: usize)
        ensures
            r == self.slots(),
    {
        self.data.len()
    }

    /// Go through all living entities, by slot.
    pub fn iter(&self) -> (r: Entities<'_>)
        requires
            self.wf(),
        ensures
            r.wf(),
            r.remaining() == self.living_list(),
    {
        Entities { slice: &self.data, cur_idx: 0 }
    }

    /// The entities that `iter` goes through are the living ones, each once.
    pub proof fn law_iter_visits_the_living(&self)
        requires
            self.wf(),
        ensures
            self.living_list().no_duplicates(),
            forall|e: Entity| #[trigger]
                self.living_list().contains(e) == self.living().contains_key(e),
    {
        lemma_living_from(self.data@, 0);
        assert forall|e: Entity| #[trigger]
            self.living_list().contains(e) == self.living().contains_key(e) by {
            lemma_entity_ext(e, e);
        }
    }

    /// `iter` goes through the living entities from the first slot to the last.
    pub proof fn law_iter_visits_in_order(&self, i: int, j: int)
        requires
            self.wf(),
            0 <= i < j < self.living_list().len(),
        ensures
            self.living_list()[i].index() < self.living_list()[j].index(),
    {
        lemma_living_order(self.data@, 0, i, j);
    }

    /// Two living entities never share a slot.
    pub proof fn law_one_entity_per_slot(&self, a: Entity, b: Entity)
        requires
            self.wf(),
            self.living().contains_key(a),
            self.living().contains_key(b),
            a.index() == b.index(),
        ensures
            a == b,
    {
        lemma_entity_ext(a, b);
    }

    /// An exact entity resurfaces only after many others were created.
    pub proof fn law_entities_resurface_late(&self, j: int, k: int)
        requires
            self.wf(),
            0 <= j < k < self.history().len(),
            self.history()[j] == self.history()[k],
        ensures
            k - j > 255 * spacing(),
    {
        reveal(numbered);
        let h = self.history();
        let i = h[j].index();
        lemma_uses_order(h, i, 0, j);
        lemma_uses_order(h, i, j + 1, k);
        assert(uses(h, i, j + 1) == uses(h, i, j) + 1);
        assert(uses(h, i, k) - uses(h, i, j) >= 256);
        lemma_late(h, i, j + 1, k);
        lemma_spacing(uses(h, i, k) - uses(h, i, j + 1), 255);
    }

    /// An entity that was just destroyed resurfaces only after many others were created
    /// since: its slot waits for the next generation in `self`, and `after` is some time
    /// later.
    pub proof fn law_the_destroyed_resurface_late(&self, after: &EntityManager, e: Entity, k: int)
        requires
            self.wf(),
            after.wf(),
            self.waiting().contains(e.index() as usize),
            self.slot_generation(e.index()) == (e.generation() + 1) % 256,
            self.history().len() <= k < after.history().len(),
            after.history().take(self.history().len() as int) == self.history(),
            after.history()[k] == e,
        ensures
            k - self.history().len() >= 255 * spacing(),
    {
        reveal(numbered);
        let h = after.history();
        let m = self.history().len() as int;
        let i = e.index();
        lemma_entity_ext(e, e);
        assert forall|q: int| 0 <= q < m implies #[trigger] self.history()[q] == h[q] by {
            assert(h.take(m)[q] == h[q]);
        }
        lemma_uses_prefix(self.history(), h, i, m);
        let q = choose|q: int| 0 <= q < self.unused@.len() && self.unused@[q] == i as usize;
        assert(!self.data@[self.unused@[q] as int].alive);
        assert(self.used(i) == uses(h, i, m));
        lemma_uses_order(h, i, m, k);
        assert(uses(h, i, k) - uses(h, i, m) >= 255);
        lemma_late(h, i, m, k);
        lemma_spacing(uses(h, i, k) - uses(h, i, m), 255);
    }

    /// Whoever lives was created.
    pub proof fn law_the_living_were_created(&self, e: Entity)
        requires
            self.wf(),
            self.living().contains_key(e),
        ensures
            self.history().contains(e),
    {
        reveal(numbered);
        let h = self.history();
        let i = e.index();
        let n = h.len() as int;
        lemma_entity_ext(e, e);
        assert(self.data@[i].alive);
        lemma_some_use(h, i, n);
        let p = last_use(h, i, n);
        assert(uses(h, i, p) == self.used(i) - 1);
        lemma_entity_ext(h[p], e);
        assert(h[p] == e);
    }

    /// The slots that wait for reuse are different, and no living entity is in one.
    pub proof fn lemma_waiting(&self)
        requires
            self.wf(),
        ensures
            self.waiting().no_duplicates(),
            forall|k: int|
                0 <= k < self.waiting().len() ==> (#[trigger] self.waiting()[k]) < self.slots(),
            forall|e: Entity| #[trigger]
                self.living().contains_key(e) ==> {
                    &&& 0 <= e.index() < self.slots()
                    &&& !self.waiting().contains(e.index() as usize)
                },
            self.slots() <= MAX_ENTITIES,
    {
        assert forall|e: Entity| #[trigger] self.living().contains_key(e) implies {
            &&& 0 <= e.index() < self.slots()
            &&& !self.waiting().contains(e.index() as usize)
        } by {
            lemma_entity_ext(e, e);
        }
    }

    /// Each slot was used.
    pub proof fn lemma_slots_were_used(&self)
        requires
            self.wf(),
        ensures
            self.slots() <= self.history().len(),
    {
    }

    /// Living entities live in slots.
    pub proof fn lemma_living_below(&self, e: Entity)
        requires
            self.living().contains_key(e),
        ensures
            0 <= e.index() < self.slots(),
    {
        lemma_entity_ext(e, e);
    }
}

/// The place of no block in particular.
pub open spec fn no_block() -> Offset {
    Offset { granularity: Granularity::Small, inner_off: 0 }
}

// what is due stays due.
proof fn lemma_due_more(past: Seq<Entity>, index: int, ahead: int, more: int)
    requires
        due_in(past, index, ahead),
        ahead <= more,
    ensures
        due_in(past, index, more),
{
    reveal(due_in);
}

// more uses take more time.
proof fn lemma_spacing(a: int, b: int)
    requires
        b <= a,
    ensures
        spacing() * a >= b * spacing(),
{
    assert(spacing() * a >= b * spacing()) by (nonlinear_arith)
        requires
            b <= a,
            0 <= spacing(),
    ;
}

// one more entity.
proof fn lemma_uses_push(history: Seq<Entity>, e: Entity)
    ensures
        forall|index: int, n: int|
            n <= history.len() ==> #[trigger] uses(history.push(e), index, n) == uses(
                history,
                index,
                n,
            ),
        forall|index: int| #[trigger]
            uses(history.push(e), index, history.push(e).len() as int) == uses(
                history,
                index,
                history.len() as int,
            ) + if e.index() == index {
                1int
            } else {
                0int
            },
{
    assert forall|index: int, n: int| n <= history.len() implies #[trigger] uses(
        history.push(e),
        index,
        n,
    ) == uses(history, index, n) by {
        lemma_uses_prefix(history, history.push(e), index, n);
    }
    assert forall|index: int| #[trigger]
        uses(history.push(e), index, history.push(e).len() as int) == uses(
            history,
            index,
            history.len() as int,
        ) + if e.index() == index {
            1int
        } else {
            0int
        } by {
        lemma_uses_prefix(history, history.push(e), index, history.len() as int);
        assert(history.push(e)[history.len() as int] == e);
    }
}

// what comes later does not count.
proof fn lemma_uses_prefix(a: Seq<Entity>, b: Seq<Entity>, index: int, n: int)
    requires
        n <= a.len(),
        n <= b.len(),
        forall|k: int| 0 <= k < n ==> #[trigger] a[k] == b[k],
    ensures
        uses(a, index, n) == uses(b, index, n),
    decreases n,
{
    if n > 0 {
        lemma_uses_prefix(a, b, index, n - 1);
        assert(a[n - 1] == b[n - 1]);
    }
}

// a slot that no entity is in was not used.
proof fn lemma_uses_none(history: Seq<Entity>, index: int, n: int)
    requires
        n <= history.len(),
        forall|k: int| 0 <= k < n ==> (#[trigger] history[k]).index() != index,
    ensures
        uses(history, index, n) == 0,
    decreases n,
{
    if n > 0 {
        lemma_uses_none(history, index, n - 1);
    }
}

// uses only add up.
proof fn lemma_uses_order(history: Seq<Entity>, index: int, a: int, b: int)
    requires
        a <= b,
    ensures
        0 <= uses(history, index, a) <= uses(history, index, b),
    decreases b,
{
    if b > 0 {
        if a < b {
            lemma_uses_order(history, index, a, b - 1);
        } else {
            lemma_uses_order(history, index, a - 1, b - 1);
        }
    }
}

// the uses of a slot from the second on are far apart.
proof fn lemma_far_apart(history: Seq<Entity>, j: int, k: int)
    requires
        spaced(history),
        0 <= j <= k < history.len(),
        history[j].index() == history[k].index(),
        1 <= uses(history, history[j].index(), j),
    ensures
        k - j >= spacing() * (uses(history, history[j].index(), k) - uses(
            history,
            history[j].index(),
            j,
        )),
    decreases k,
{
    reveal(spaced);
    let index = history[j].index();
    if j < k {
        let p = last_use(history, index, k);
        lemma_last_use(history, index, j, k);
        lemma_uses_order(history, index, j, p);
        lemma_far_apart(history, j, p);
        assert(k - p >= spacing()) by {
            assert(history[p].index() == history[k].index());
        }
        let a = uses(history, index, p) - uses(history, index, j);
        assert(spacing() * (a + 1) == spacing() * a + spacing()) by (nonlinear_arith);
    }
}

// the last of the first `n` entities that is in the given slot.
spec fn last_use(history: Seq<Entity>, index: int, n: int) -> int
    decreases n,
{
    if n <= 0 {
        -1
    } else if history[n - 1].index() == index {
        n - 1
    } else {
        last_use(history, index, n - 1)
    }
}

// the slot is used last after each of its uses.
proof fn lemma_last_use(history: Seq<Entity>, index: int, j: int, n: int)
    requires
        0 <= j < n <= history.len(),
        history[j].index() == index,
    ensures
        j <= last_use(history, index, n) < n,
        history[last_use(history, index, n)].index() == index,
        uses(history, index, n) == uses(history, index, last_use(history, index, n)) + 1,
    decreases n,
{
    if history[n - 1].index() != index {
        lemma_last_use(history, index, j, n - 1);
    }
}

// a slot that was used has a last use.
proof fn lemma_some_use(history: Seq<Entity>, index: int, n: int)
    requires
        n <= history.len(),
        1 <= uses(history, index, n),
    ensures
        0 <= last_use(history, index, n) < n,
        history[last_use(history, index, n)].index() == index,
        uses(history, index, n) == uses(history, index, last_use(history, index, n)) + 1,
    decreases n,
{
    if history[n - 1].index() != index {
        lemma_some_use(history, index, n - 1);
    }
}

// the first entity from `m` on that is in the given slot.
spec fn next_use(history: Seq<Entity>, index: int, m: int) -> int
    decreases history.len() - m,
{
    if m >= history.len() || history[m].index() == index {
        m
    } else {
        next_use(history, index, m + 1)
    }
}

// the slot is not used before it is used next.
proof fn lemma_next_use(history: Seq<Entity>, index: int, m: int, k: int)
    requires
        0 <= m <= k < history.len(),
        history[k].index() == index,
    ensures
        m <= next_use(history, index, m) <= k,
        history[next_use(history, index, m)].index() == index,
        uses(history, index, next_use(history, index, m)) == uses(history, index, m),
    decreases k - m,
{
    if history[m].index() != index {
        lemma_next_use(history, index, m + 1, k);
    }
}

// a use comes back late if it is not the first one since.
proof fn lemma_late(history: Seq<Entity>, index: int, m: int, k: int)
    requires
        spaced(history),
        0 <= m <= k < history.len(),
        history[k].index() == index,
        1 <= uses(history, index, m),
    ensures
        k - m >= spacing() * (uses(history, index, k) - uses(history, index, m)),
{
    lemma_next_use(history, index, m, k);
    lemma_far_apart(history, next_use(history, index, m), k);
}

// an entity is created in a slot that is due.
proof fn lemma_created(past: Seq<Entity>, e: Entity)
    requires
        numbered(past),
        spaced(past),
        e.generation() == uses(past, e.index(), past.len() as int) % 256,
        forall|j: int|
            0 <= j < past.len() && (#[trigger] past[j]).index() == e.index() && 1 <= uses(
                past,
                e.index(),
                j,
            ) ==> past.len() - j >= spacing(),
    ensures
        numbered(past.push(e)),
        spaced(past.push(e)),
        forall|k: int|
            0 <= k < past.len() && #[trigger] past[k] == e ==> {
                &&& past.len() - k > 255 * spacing()
                &&& 256 <= uses(past, e.index(), past.len() as int)
            },
{
    reveal(numbered);
    let h = past.push(e);
    lemma_uses_push(past, e);
    assert(numbered(h)) by {
        assert forall|k: int| 0 <= k < h.len() implies (#[trigger] h[k]).generation() == uses(
            h,
            h[k].index(),
            k,
        ) % 256 by {
            if k < past.len() {
                assert(h[k] == past[k]);
            }
        }
    }
    assert(spaced(h)) by {
        reveal(spaced);
        assert forall|j: int, k: int|
            #![trigger h[j], h[k]]
            0 <= j < k < h.len() && h[j].index() == h[k].index() && 1 <= uses(
                h,
                h[j].index(),
                j,
            ) implies k - j >= spacing() by {
            assert(h[j] == past[j]);
            if k < past.len() {
                assert(h[k] == past[k]);
            }
        }
    }
    assert forall|k: int| 0 <= k < past.len() && #[trigger] past[k] == e implies {
        &&& past.len() - k > 255 * spacing()
        &&& 256 <= uses(past, e.index(), past.len() as int)
    } by {
        let n = past.len() as int;
        let i = e.index();
        assert(h[k] == e && h[n] == e);
        lemma_uses_order(h, i, 0, k);
        lemma_uses_order(h, i, k + 1, n);
        assert(uses(h, i, k + 1) == uses(h, i, k) + 1);
        assert(uses(h, i, n) - uses(h, i, k) >= 256);
        lemma_late(h, i, k + 1, n);
        lemma_spacing(uses(h, i, n) - uses(h, i, k + 1), 255);
    }
}

// what the list of living entities holds.
proof fn lemma_living_from(data: Seq<EntityData>, i: int)
    requires
        0 <= i,
        data.len() <= MAX_ENTITIES,
    ensures
        living_from(data, i).no_duplicates(),
        forall|e: Entity| #[trigger]
            living_from(data, i).contains(e) <==> {
                &&& i <= e.index() < data.len()
                &&& data[e.index()].alive
                &&& data[e.index()].gen == e.generation()
            },
    decreases data.len() - i,
{
    let s = living_from(data, i);
    if i < data.len() {
        lemma_living_from(data, i + 1);
        let rest = living_from(data, i + 1);
        if data[i].alive {
            let first = occupant(data, i);
            assert(first.index() == i && first.generation() == data[i].gen);
            assert(!rest.contains(first));
            assert(s[0] == first);
            assert forall|e: Entity| #[trigger] s.contains(e) == (e == first || rest.contains(e)) by {
                if rest.contains(e) {
                    let k = choose|k: int| 0 <= k < rest.len() && rest[k] == e;
                    assert(s[k + 1] == e);
                }
                if s.contains(e) {
                    let k = choose|k: int| 0 <= k < s.len() && s[k] == e;
                    if k > 0 {
                        assert(rest[k - 1] == e);
                    }
                }
            }
            assert forall|a: int, b: int| 0 <= a < b < s.len() implies s[a] != s[b] by {
                assert(rest[b - 1] == s[b]);
                if a > 0 {
                    assert(rest[a - 1] == s[a]);
                }
            }
            assert forall|e: Entity| #[trigger] s.contains(e) implies {
                &&& i <= e.index() < data.len()
                &&& data[e.index()].alive
                &&& data[e.index()].gen == e.generation()
            } by {}
            assert forall|e: Entity| {
                &&& i <= e.index() < data.len()
                &&& data[e.index()].alive
                &&& data[e.index()].gen == e.generation()
            } implies #[trigger] s.contains(e) by {
                if e.index() == i {
                    lemma_entity_ext(e, first);
                } else {
                    assert(rest.contains(e));
                }
            }
        }
    }
}

/// Goes through all living entities.
pub struct Entities<'a> {
    slice: &'a Vec<EntityData>,
    cur_idx: usize,
}

impl<'a> Entities<'a> {
    /// The living entities that are still to come.
    pub closed spec fn remaining(&self) -> Seq<Entity> {
        living_from(self.slice@, self.cur_idx as int)
    }

    /// There is an index for each slot.
    pub closed spec fn wf(&self) -> bool {
        self.slice@.len() <= MAX_ENTITIES
    }

    /// The next living entity.
    pub fn next(&mut self) -> (r: Option<Entity>)
        requires
            old(self).wf(),
        ensures
            final(self).wf(),
            match r {
                Some(e) => {
                    &&& 0 < old(self).remaining().len()
                    &&& e == old(self).remaining()[0]
                    &&& final(self).remaining() == old(self).remaining().drop_first()
                },
                None => {
                    &&& old(self).remaining().len() == 0
                    &&& final(self).remaining() == old(self).remaining()
                },
            },
    {
        while self.cur_idx < self.slice.len()
            invariant
                self.wf(),
                self.slice == old(self).slice,
                self.remaining() == old(self).remaining(),
            decreases self.slice@.len() - self.cur_idx,
        {
            let idx: usize = self.cur_idx;
            let ghost before = self.remaining();
            self.cur_idx = idx + 1;
            if self.slice[idx].alive {
                let e = Entity::new(idx as u32, self.slice[idx].gen);
                proof {
                    lemma_entity_ext(e, occupant(self.slice@, idx as int));
                    assert(before =~= seq![e] + self.remaining());
                    assert(before.drop_first() =~= self.remaining());
                }
                return Some(e);
            }
        }
        None
    }
}

// a list of different numbers below `n` has at most `n` entries.
proof fn lemma_distinct_below(s: Seq<usize>, n: nat)
    requires
        s.no_duplicates(),
        forall|k: int| 0 <= k < s.len() ==> (#[trigger] s[k]) < n,
    ensures
        s.len() <= n,
{
    let t = Seq::new(s.len(), |k: int| s[k] as int);
    let all = vstd::set_lib::set_int_range(0, n as int);
    t.unique_seq_to_set();
    vstd::set_lib::lemma_int_range(0, n as int);
    vstd::set_lib::lemma_len_subset(t.to_set(), all);
}

// the list of living entities is in the order of their slots.
proof fn lemma_living_order(data: Seq<EntityData>, from: int, i: int, j: int)
    requires
        0 <= from,
        data.len() <= MAX_ENTITIES,
        0 <= i < j < living_from(data, from).len(),
    ensures
        living_from(data, from)[i].index() < living_from(data, from)[j].index(),
    decreases data.len() - from,
{
    let s = living_from(data, from);
    let rest = living_from(data, from + 1);
    if from < data.len() {
        if data[from].alive {
            assert(s[j] == rest[j - 1]);
            if i == 0 {
                lemma_living_from(data, from + 1);
                assert(rest.contains(rest[j - 1]));
                assert(occupant(data, from).index() == from);
            } else {
                assert(s[i] == rest[i - 1]);
                lemma_living_order(data, from + 1, i - 1, j - 1);
            }
        } else {
            lemma_living_order(data, from + 1, i, j);
        }
    }
}

/// The number of an entity has its slot in the lower 24 bits and its generation above them.
pub proof fn law_numbers_hold_slot_and_generation(
    index: u32,
    gen: u8,
    e: Entity,
    id: u32,
    same: Entity,
    slot: u32,
    generation: u8,
)
    requires
        index < 0x100_0000,
        call_ensures(Entity::new, (index, gen), e),
        call_ensures(Entity::id, (&e,), id),
        call_ensures(Entity::from_id, (id,), same),
        call_ensures(index_of, (e,), slot),
        call_ensures(generation_of, (e,), generation),
    ensures
        id == gen * 0x100_0000 + index,
        same == e,
        slot == index,
        generation == gen,
{
    lemma_entity_ext(e, same);
}

/// The next entities: as long as more than 1024 slots wait, one after the other is reused, the
/// one that waits longest first and each in its next generation. The others get new slots, in
/// order, in generation 0.
pub proof fn law_new_entities_take_the_slots_that_wait_longest(n: usize, r: Vec<Entity>)
    ensures
        forall|em: &mut EntityManager|
            em.wf() && n <= em.spec_room() && #[trigger] call_ensures(
                EntityManager::next_entities,
                (em, n),
                r,
            ) ==> {
                let spare = if em.waiting().len() > 1024 {
                    em.waiting().len() - 1024
                } else {
                    0
                };
                &&& r@.len() == n
                &&& forall|k: int|
                    0 <= k < n ==> {
                        &&& k < spare ==> (#[trigger] r@[k]).index() == em.waiting()[k]
                            && r@[k].generation() == em.slot_generation(em.waiting()[k] as int)
                        &&& k >= spare ==> r@[k].index() == em.slots() + k - spare
                            && r@[k].generation() == 0
                    }
                &&& final(em).history() == em.history() + r@
                &&& final(em).waiting() == em.waiting().skip(
                    if n < spare {
                        n as int
                    } else {
                        spare
                    },
                )
                &&& final(em).slots() == em.slots() + if n < spare {
                    0
                } else {
                    n - spare
                }
            },
{
    assert forall|em: &mut EntityManager|
        em.wf() && n <= em.spec_room() && #[trigger] call_ensures(
            EntityManager::next_entities,
            (em, n),
            r,
        ) implies forall|k: int|
        0 <= k < n ==> {
            let spare = if em.waiting().len() > 1024 {
                em.waiting().len() - 1024
            } else {
                0
            };
            &&& k < spare ==> (#[trigger] r@[k]).index() == em.waiting()[k] && r@[k].generation()
                == em.slot_generation(em.waiting()[k] as int)
            &&& k >= spare ==> r@[k].index() == em.slots() + k - spare && r@[k].generation() == 0
        } by {
        assert(em.reused(n as int) <= n || n < 0);
    }
}

/// One entity more: the slot that waits longest is reused if more than 1024 wait, and else the
/// entity gets a new slot.
pub proof fn law_a_new_entity_takes_the_slot_that_waits_longest(offset: Offset, e: Entity)
    ensures
        forall|em: &mut EntityManager|
            em.wf() && #[trigger] call_ensures(EntityManager::next_entity, (em, offset), e) ==> {
                &&& final(em).living() == em.living().insert(e, offset)
                &&& final(em).history() == em.history().push(e)
                &&& em.waiting().len() > 1024 ==> {
                    &&& e.index() == em.waiting()[0]
                    &&& e.generation() == em.slot_generation(em.waiting()[0] as int)
                    &&& final(em).waiting() == em.waiting().skip(1)
                    &&& final(em).slots() == em.slots()
                }
                &&& em.waiting().len() <= 1024 ==> {
                    &&& e.index() == em.slots()
                    &&& e.generation() == 0
                    &&& final(em).waiting() == em.waiting()
                    &&& final(em).slots() == em.slots() + 1
                }
            },
{
    assert forall|em: &mut EntityManager|
        em.wf() && em.waiting().len() > 1024 && #[trigger] call_ensures(
            EntityManager::next_entity,
            (em, offset),
            e,
        ) implies final(em).waiting() == em.waiting().skip(1) by {
        assert(em.waiting().skip(1) =~= em.waiting().drop_first());
    }
}

/// There is room for a new entity in each slot that is not used yet and in each that waits but
/// for the last 1024, and another one can be created as long as there is room.
pub proof fn law_room_is_what_is_left_of_the_slots(em: &EntityManager, room: usize, can: bool)
    requires
        em.wf(),
        call_ensures(EntityManager::room, (em,), room),
        call_ensures(EntityManager::can_spawn, (em,), can),
    ensures
        em.waiting().len() <= 1024 ==> room == 0x100_0000 - em.slots(),
        em.waiting().len() > 1024 ==> room == 0x100_0000 - em.slots() + em.waiting().len() - 1024,
        can == (room > 0),
{
    em.lemma_waiting();
}

/// Destroying an entity makes its slot wait behind the others, for the next generation.
pub proof fn law_the_destroyed_wait_last(e: Entity)
    ensures
        forall|em: &mut EntityManager|
            em.wf() && em.living().contains_key(e) && #[trigger] call_ensures(
                EntityManager::destroy_entity,
                (em, e),
                (),
            ) ==> {
                &&& final(em).living() == em.living().remove(e)
                &&& final(em).waiting() == em.waiting().push(e.index() as usize)
                &&& final(em).slot_generation(e.index()) == if e.generation() == 255 {
                    0
                } else {
                    e.generation() + 1
                }
                &&& final(em).history() == em.history()
            },
{
    lemma_entity_ext(e, e);
}

/// An exact entity resurfaces only once 262144 entities have been created, and only after 261375
/// others were created since it last was.
pub proof fn law_exact_entities_resurface_late(offset: Offset, e: Entity)
    ensures
        forall|em: &mut EntityManager|
            em.wf() && #[trigger] call_ensures(EntityManager::next_entity, (em, offset), e) ==> {
                &&& !em.living().contains_key(e)
                &&& em.history().contains(e) ==> em.history().len() >= 262144
                &&& forall|k: int|
                    0 <= k < em.history().len() && #[trigger] em.history()[k] == e
                        ==> em.history().len() - k > 261375
            },
{
}

} // verus!
