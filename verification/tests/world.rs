use entity_engine::ecs::component::{
    assert_component_compliance, make_empty, CheckDependencies, Component, ComponentSet,
    Components, Noncompliance, PhantomComponents, Unmet,
};
use entity_engine::ecs::entity::{generation_of, index_of, Entity, EntityManager, MIN_UNUSED};
use entity_engine::ecs::block::{Granularity, Offset};
use entity_engine::ecs::offset_table::ComponentId;
use entity_engine::ecs::state::State;
use entity_engine::ecs::world::{BuildError, World, WorldAllocator, WorldBuilder, MAX_THREADS};
use entity_engine::memory::allocator::DefaultAllocator;

#[derive(Clone, Copy, PartialEq, Eq, Debug, Default)]
struct Pos {
    x: i32,
    y: i32,
}

#[derive(Clone, Copy, PartialEq, Eq, Debug, Default)]
struct Vel {
    x: i32,
    y: i32,
}

// a component without data, which goes with a position only.
#[derive(Clone, Copy, PartialEq, Eq, Debug, Default)]
struct Marked;

// a component that outgrows a small block.
#[derive(Clone, Copy, PartialEq, Eq, Debug)]
struct Bulk {
    words: [u64; 100],
}

// a component that outgrows a medium block.
#[derive(Clone, Copy, PartialEq, Eq, Debug)]
struct Huge {
    words: [u64; 500],
}

#[derive(Debug)]
enum Value {
    Pos(Pos),
    Vel(Vel),
    Marked(Marked),
    Bulk(Bulk),
    Huge(Huge),
    Large(Large),
    Wide(Wide),
}

// more than any block holds.
#[derive(Debug)]
struct Large {
    _bytes: [u8; 8193],
}

// aligned to more than a block is.
#[derive(Debug)]
#[allow(dead_code)]
struct Wide(u8);

// the functions `spec_id`, `spec_dependencies` and `unpacked` of a component are there for
// the proofs alone, and are never called.
impl Component for Pos {
    type Value = Value;

    fn spec_id() -> ComponentId {
        unreachable!()
    }

    fn spec_dependencies() -> vstd::seq::Seq<ComponentId> {
        unreachable!()
    }

    fn unpacked(_: Value) -> Option<Pos> {
        unreachable!()
    }

    fn id() -> ComponentId {
        1
    }

    fn dependencies() -> Vec<ComponentId> {
        Vec::new()
    }

    fn pack(self) -> Value {
        Value::Pos(self)
    }

    fn unpack(v: Value) -> Option<Pos> {
        match v {
            Value::Pos(c) => Some(c),
            _ => None,
        }
    }

    fn peek(v: &Value) -> Option<&Pos> {
        match v {
            Value::Pos(c) => Some(c),
            _ => None,
        }
    }

    fn peek_mut(v: &mut Value) -> Option<&mut Pos> {
        match v {
            Value::Pos(c) => Some(c),
            _ => None,
        }
    }
}

impl Component for Vel {
    type Value = Value;

    fn spec_id() -> ComponentId {
        unreachable!()
    }

    fn spec_dependencies() -> vstd::seq::Seq<ComponentId> {
        unreachable!()
    }

    fn unpacked(_: Value) -> Option<Vel> {
        unreachable!()
    }

    fn id() -> ComponentId {
        2
    }

    fn dependencies() -> Vec<ComponentId> {
        vec![1]
    }

    fn pack(self) -> Value {
        Value::Vel(self)
    }

    fn unpack(v: Value) -> Option<Vel> {
        match v {
            Value::Vel(c) => Some(c),
            _ => None,
        }
    }

    fn peek(v: &Value) -> Option<&Vel> {
        match v {
            Value::Vel(c) => Some(c),
            _ => None,
        }
    }

    fn peek_mut(v: &mut Value) -> Option<&mut Vel> {
        match v {
            Value::Vel(c) => Some(c),
            _ => None,
        }
    }
}

impl Component for Marked {
    type Value = Value;

    fn spec_id() -> ComponentId {
        unreachable!()
    }

    fn spec_dependencies() -> vstd::seq::Seq<ComponentId> {
        unreachable!()
    }

    fn unpacked(_: Value) -> Option<Marked> {
        unreachable!()
    }

    fn id() -> ComponentId {
        3
    }

    fn dependencies() -> Vec<ComponentId> {
        vec![1]
    }

    fn pack(self) -> Value {
        Value::Marked(self)
    }

    fn unpack(v: Value) -> Option<Marked> {
        match v {
            Value::Marked(c) => Some(c),
            _ => None,
        }
    }

    fn peek(v: &Value) -> Option<&Marked> {
        match v {
            Value::Marked(c) => Some(c),
            _ => None,
        }
    }

    fn peek_mut(v: &mut Value) -> Option<&mut Marked> {
        match v {
            Value::Marked(c) => Some(c),
            _ => None,
        }
    }
}

impl Component for Bulk {
    type Value = Value;

    fn spec_id() -> ComponentId {
        unreachable!()
    }

    fn spec_dependencies() -> vstd::seq::Seq<ComponentId> {
        unreachable!()
    }

    fn unpacked(_: Value) -> Option<Bulk> {
        unreachable!()
    }

    fn id() -> ComponentId {
        4
    }

    fn dependencies() -> Vec<ComponentId> {
        Vec::new()
    }

    fn pack(self) -> Value {
        Value::Bulk(self)
    }

    fn unpack(v: Value) -> Option<Bulk> {
        match v {
            Value::Bulk(c) => Some(c),
            _ => None,
        }
    }

    fn peek(v: &Value) -> Option<&Bulk> {
        match v {
            Value::Bulk(c) => Some(c),
            _ => None,
        }
    }

    fn peek_mut(v: &mut Value) -> Option<&mut Bulk> {
        match v {
            Value::Bulk(c) => Some(c),
            _ => None,
        }
    }
}

impl Component for Huge {
    type Value = Value;

    fn spec_id() -> ComponentId {
        unreachable!()
    }

    fn spec_dependencies() -> vstd::seq::Seq<ComponentId> {
        unreachable!()
    }

    fn unpacked(_: Value) -> Option<Huge> {
        unreachable!()
    }

    fn id() -> ComponentId {
        5
    }

    fn dependencies() -> Vec<ComponentId> {
        Vec::new()
    }

    fn pack(self) -> Value {
        Value::Huge(self)
    }

    fn unpack(v: Value) -> Option<Huge> {
        match v {
            Value::Huge(c) => Some(c),
            _ => None,
        }
    }

    fn peek(v: &Value) -> Option<&Huge> {
        match v {
            Value::Huge(c) => Some(c),
            _ => None,
        }
    }

    fn peek_mut(v: &mut Value) -> Option<&mut Huge> {
        match v {
            Value::Huge(c) => Some(c),
            _ => None,
        }
    }
}

impl Component for Large {
    type Value = Value;

    fn spec_id() -> ComponentId {
        unreachable!()
    }

    fn spec_dependencies() -> vstd::seq::Seq<ComponentId> {
        unreachable!()
    }

    fn unpacked(_: Value) -> Option<Large> {
        unreachable!()
    }

    fn id() -> ComponentId {
        6
    }

    fn dependencies() -> Vec<ComponentId> {
        Vec::new()
    }

    fn pack(self) -> Value {
        Value::Large(self)
    }

    fn unpack(v: Value) -> Option<Large> {
        match v {
            Value::Large(c) => Some(c),
            _ => None,
        }
    }

    fn peek(v: &Value) -> Option<&Large> {
        match v {
            Value::Large(c) => Some(c),
            _ => None,
        }
    }

    fn peek_mut(v: &mut Value) -> Option<&mut Large> {
        match v {
            Value::Large(c) => Some(c),
            _ => None,
        }
    }
}

impl Component for Wide {
    type Value = Value;

    fn spec_id() -> ComponentId {
        unreachable!()
    }

    fn spec_dependencies() -> vstd::seq::Seq<ComponentId> {
        unreachable!()
    }

    fn unpacked(_: Value) -> Option<Wide> {
        unreachable!()
    }

    fn id() -> ComponentId {
        7
    }

    fn dependencies() -> Vec<ComponentId> {
        Vec::new()
    }

    fn pack(self) -> Value {
        Value::Wide(self)
    }

    fn unpack(v: Value) -> Option<Wide> {
        match v {
            Value::Wide(c) => Some(c),
            _ => None,
        }
    }

    fn peek(v: &Value) -> Option<&Wide> {
        match v {
            Value::Wide(c) => Some(c),
            _ => None,
        }
    }

    fn peek_mut(v: &mut Value) -> Option<&mut Wide> {
        match v {
            Value::Wide(c) => Some(c),
            _ => None,
        }
    }
}

#[test]
fn components_are_pushed_once() {
    let list = make_empty().push::<Pos>();
    assert!(list.has::<Pos>());
    assert!(!list.has::<Vel>());
    let builder = WorldBuilder::new().with_component::<Pos>();
    assert!(builder.has_component::<Pos>());
    assert!(!builder.has_component::<Vel>());
}

#[test]
fn make_world() {
    let _ = WorldBuilder::new().with_component::<Pos>().with_component::<Vel>().build().unwrap();
}

#[test]
fn make_5k_entities() {
    let mut world = WorldBuilder::new().with_component::<Pos>().build().ok().unwrap();
    let entities: Vec<_> = (0..(5 * 1024)).map(|_| world.next_entity()).collect();
    for entity in entities.iter().cloned() {
        assert!(!world.has_component::<Pos>(entity));
        assert!(world.set_component(entity, Pos::default()).is_none());
        assert!(world.has_component::<Pos>(entity));
        assert_eq!(*world.get_component::<Pos>(entity).unwrap(), Default::default());
    }
    world.destroy_entities(&entities);
}

#[test]
fn remove_attach() {
    // remove and attach a component some amount of times.
    // this is supposed to indicate that the memory released when removing the component
    // is merged with other free memory, and then used again when reattaching to prevent
    // unbounded growth.
    const ATTACH_TIMES: usize = 10_000;

    let mut world = WorldBuilder::new().with_component::<Pos>().build().ok().unwrap();
    let e = world.next_entity();
    assert!(world.set_component(e, Pos::default()).is_none());
    for _ in 0..ATTACH_TIMES {
        assert!(world.has_component::<Pos>(e));
        assert_eq!(world.remove_component::<Pos>(e).unwrap(), Pos::default());
        assert!(!world.has_component::<Pos>(e));
        assert!(world.set_component(e, Pos::default()).is_none());
    }

    world.destroy_entity(e);
}

#[test]
fn a_pool_of_the_given_size() {
    let world = WorldBuilder::new().with_component::<Pos>().num_threads(0).build();
    assert!(world.is_ok());
    let builder = WorldBuilder::new().with_component::<Pos>();
    assert!(builder.num_threads >= 1);
    let world = builder.num_threads(MAX_THREADS + 1).build();
    assert!(matches!(world.err(), Some(BuildError::TooManyThreads)));
}

#[test]
fn a_pool_that_does_not_start() {
    let builder = WorldBuilder::new().with_component::<Pos>();
    let refused = std::io::Error::new(std::io::ErrorKind::Other, "no threads");
    assert!(matches!(builder.build_on(Err(refused)).err(), Some(BuildError::NoPool)));
}

fn world_of_all() -> World<
    <entity_engine::ecs::component::ListEntry<
        std::marker::PhantomData<Huge>,
        entity_engine::ecs::component::ListEntry<
            std::marker::PhantomData<Bulk>,
            entity_engine::ecs::component::ListEntry<
                std::marker::PhantomData<Marked>,
                entity_engine::ecs::component::ListEntry<
                    std::marker::PhantomData<Vel>,
                    entity_engine::ecs::component::ListEntry<
                        std::marker::PhantomData<Pos>,
                        entity_engine::ecs::component::Empty<Value>,
                    >,
                >,
            >,
        >,
    > as PhantomComponents>::Components,
> {
    WorldBuilder::new()
        .with_component::<Pos>()
        .with_component::<Vel>()
        .with_component::<Marked>()
        .with_component::<Bulk>()
        .with_component::<Huge>()
        .num_threads(0)
        .build()
        .ok()
        .unwrap()
}

#[test]
fn components_survive_promotion() {
    let mut world = world_of_all();
    let e = world.next_entity();
    let other = world.next_entity();
    assert!(world.set_component(e, Pos { x: 1, y: 2 }).is_none());
    assert!(world.set_component(other, Pos { x: 5, y: 6 }).is_none());
    assert!(world.can_set::<Bulk>(e));
    assert!(world.set_component(e, Bulk { words: [7; 100] }).is_none());
    assert!(world.can_set::<Huge>(e));
    assert!(world.set_component(e, Huge { words: [8; 500] }).is_none());
    assert!(world.set_component(e, Vel { x: 3, y: 4 }).is_none());
    assert_eq!(world.get_component::<Pos>(e), Some(&Pos { x: 1, y: 2 }));
    assert_eq!(world.get_component::<Vel>(e), Some(&Vel { x: 3, y: 4 }));
    assert_eq!(world.get_component::<Bulk>(e), Some(&Bulk { words: [7; 100] }));
    assert_eq!(world.get_component::<Huge>(e), Some(&Huge { words: [8; 500] }));
    assert_eq!(world.get_component::<Pos>(other), Some(&Pos { x: 5, y: 6 }));
}

#[test]
fn components_are_replaced_in_place() {
    let mut world = world_of_all();
    let e = world.next_entity();
    assert!(world.set_component(e, Pos { x: 1, y: 2 }).is_none());
    assert_eq!(world.set_component(e, Pos { x: 3, y: 4 }), Some(Pos { x: 1, y: 2 }));
    world.get_mut_component::<Pos>(e).unwrap().x = 9;
    assert_eq!(world.get_component::<Pos>(e), Some(&Pos { x: 9, y: 4 }));
    assert_eq!(world.remove_component::<Pos>(e), Some(Pos { x: 9, y: 4 }));
    assert_eq!(world.remove_component::<Pos>(e), None);
    assert!(world.get_mut_component::<Pos>(e).is_none());
}

#[test]
fn components_without_data() {
    let mut world = world_of_all();
    let e = world.next_entity();
    assert!(!world.has_component::<Marked>(e));
    assert!(world.set_component(e, Marked).is_none());
    assert!(world.has_component::<Marked>(e));
    assert_eq!(world.set_component(e, Marked), Some(Marked));
    assert_eq!(world.remove_component::<Marked>(e), Some(Marked));
    assert!(!world.has_component::<Marked>(e));
}

#[test]
fn the_dead_have_no_components() {
    let mut world = world_of_all();
    let e = world.next_entity();
    assert!(world.set_component(e, Pos { x: 1, y: 2 }).is_none());
    assert!(world.is_alive(e));
    world.destroy_entity(e);
    assert!(!world.is_alive(e));
    assert!(!world.has_component::<Pos>(e));
    assert!(world.get_component::<Pos>(e).is_none());
    assert!(world.set_component(e, Pos { x: 3, y: 4 }).is_none());
    assert!(!world.has_component::<Pos>(e));
    // a second death changes nothing.
    world.destroy_entity(e);
    assert!(world.can_spawn());
    let next = world.next_entity();
    assert!(next != e);
}

#[test]
fn names_are_not_reused_at_once() {
    let mut world = world_of_all();
    let mut seen: Vec<Entity> = Vec::new();
    for _ in 0..3000 {
        let e = world.next_entity();
        assert!(!seen.contains(&e));
        seen.push(e);
        assert!(!world.has_component::<Pos>(e));
        assert!(world.set_component(e, Pos { x: 1, y: 1 }).is_none());
        world.destroy_entity(e);
    }
}

#[test]
fn indices_are_recycled_with_a_new_generation() {
    let mut em = EntityManager::new();
    let off = Offset::new(Granularity::Small, 0);
    let mut first: Option<Entity> = None;
    for _ in 0..MIN_UNUSED {
        let e = em.next_entity(off);
        if first.is_none() {
            first = Some(e);
        }
        em.destroy_entity(e);
    }
    let first = first.unwrap();
    // another one brings the number of free slots over the limit.
    let e = em.next_entity(off);
    em.destroy_entity(e);
    let again = em.next_entity(off);
    assert_eq!(index_of(again), index_of(first));
    assert_eq!(generation_of(again), generation_of(first) + 1);
    assert!(em.is_alive(again));
    assert!(!em.is_alive(first));
    assert!(em.offset_of(first).is_none());
}

#[test]
fn the_destroyed_resurface_late() {
    let mut em = EntityManager::new();
    let es = em.next_entities(MIN_UNUSED + 1);
    let e = es[MIN_UNUSED];
    // the slot of `e` is the first one to be used again.
    em.destroy_entity(e);
    for x in &es[..MIN_UNUSED] {
        em.destroy_entity(*x);
    }
    let mut others = 0;
    loop {
        let x = em.next_entity(Offset::new(Granularity::Small, 0));
        if x == e {
            break;
        }
        assert!(!em.is_alive(e));
        others += 1;
        em.destroy_entity(x);
    }
    assert_eq!(others, 255 * (MIN_UNUSED + 1));
}

#[test]
fn entity_manager_basics() {
    let mut em = EntityManager::new();
    assert_eq!(em.size_hint(), 0);
    assert_eq!(em.room(), 1 << 24);
    assert!(em.can_spawn());
    let es = em.next_entities(3);
    assert_eq!(es.len(), 3);
    let off = Offset::new(Granularity::Medium, 7);
    em.set_offset(es[1], off);
    assert_eq!(em.offset_of(es[1]), Some(off));
    em.destroy_entity(es[0]);
    let mut it = em.iter();
    assert_eq!(it.next(), Some(es[1]));
    assert_eq!(it.next(), Some(es[2]));
    assert_eq!(it.next(), None);
}

#[test]
fn many_entities_at_once() {
    let mut em = EntityManager::new();
    let es = em.next_entities(MIN_UNUSED + 2);
    for e in &es {
        em.destroy_entity(*e);
    }
    // two slots can be reused, and then there are new ones.
    assert_eq!(em.room(), (1 << 24) - (MIN_UNUSED + 2) + 2);
    let more = em.next_entities(3);
    assert_eq!(more[0], Entity::new(0, 1));
    assert_eq!(more[1], Entity::new(1, 1));
    assert_eq!(more[2], Entity::new(MIN_UNUSED as u32 + 2, 0));
}

#[test]
fn entity_parts() {
    let e = Entity::new(5, 3);
    assert_eq!(index_of(e), 5);
    assert_eq!(generation_of(e), 3);
    assert_eq!(Entity::from_id(e.id()), e);
    assert!(Entity::new(5, 4) != e);
    assert_eq!(e.display(), "3000005");
    assert_eq!(Entity::new(0, 0).display(), "0");
    assert_eq!(Entity::new(0xab_cdef, 0x12).display(), "12abcdef");
}

#[test]
fn offsets_are_ordered() {
    let a = Offset::new(Granularity::Small, 9);
    let b = Offset::new(Granularity::Medium, 1);
    let c = Offset::new(Granularity::Medium, 2);
    assert!(a < b);
    assert!(b < c);
    assert!(a < c);
    assert!(b <= b);
    assert_eq!(a.cmp(&b), a.partial_cmp(&b).unwrap());
    assert_eq!(c.cmp(&b), c.partial_cmp(&b).unwrap());
    assert_eq!(b.into_parts(), (Granularity::Medium, 1));
}

#[test]
fn compliance() {
    assert_eq!(assert_component_compliance::<Pos>(), Ok(()));
    assert_eq!(assert_component_compliance::<Large>(), Err(Noncompliance::Size));
}

#[test]
fn dependencies_are_checked() {
    let components = make_empty()
        .push::<Pos>()
        .push::<Vel>()
        .push::<Marked>()
        .into_components();
    assert!(Components::has(&components, 1));
    assert!(!Components::has(&components, 4));
    let mut components = components;
    let e = Entity::new(0, 0);
    assert!(components.assert_dependencies(&components, e).is_ok());
    components.get_mut(2).set(e, 16);
    let unmet: Unmet = components.assert_dependencies(&components, e).err().unwrap();
    assert_eq!((unmet.required_by, unmet.missing), (2, 1));
    components.get_mut(1).set(e, 0);
    assert!(components.assert_dependencies(&components, e).is_ok());
    assert_eq!(components.get(2).offset_of(e), Some(16));
    components.clear_components_for(&vec![e]);
    assert_eq!(components.get(2).offset_of(e), None);
    assert_eq!(components.get(1).offset_of(e), None);
}

#[test]
fn sets_of_components() {
    let mut components = make_empty().push::<Pos>().push::<Vel>().into_components();
    let e = Entity::new(0, 0);
    assert_eq!(<(Pos, Vel) as ComponentSet>::ids(), vec![1, 2]);
    assert!(<(Pos, Vel) as ComponentSet>::contains::<Vel>());
    assert!(!<(Pos, Vel) as ComponentSet>::contains::<Bulk>());
    components.get_mut(1).set(e, 0);
    assert_eq!(<(Pos, Vel) as ComponentSet>::has_all(&components, e), Err(2));
    assert_eq!(<Pos as ComponentSet>::has_all(&components, e), Ok(()));
    assert_eq!(<() as ComponentSet>::has_all(&components, e), Ok(()));
}

#[test]
fn blocks_of_those_that_fulfill() {
    let components = make_empty().push::<Pos>().into_components();
    let mut state = State::new(components);
    let a = state.next_entity();
    let b = state.next_entity();
    let c = state.next_entity();
    state.destroy_entity(b);
    assert!(state.set_component(c, 1, Value::Pos(Pos { x: 1, y: 2 })).is_none());
    let found = state
        .all_which_fulfill(|e| state.has_component(e, 1), WorldAllocator(DefaultAllocator))
        .unwrap();
    assert_eq!(found.len(), 1);
    let all = state.all_which_fulfill(|_| true, DefaultAllocator).unwrap();
    assert_eq!(all.len(), 2);
    assert!(state.has_component_unchecked(c, 1));
    assert!(!state.has_component(a, 1));
}
