use entity_engine::ecs::block::{Granularity, Offset};
use entity_engine::ecs::component::Component;
use entity_engine::ecs::component_list;
use entity_engine::ecs::component_list::{
    Components, IntoComponents, IntoMutexComponents, MutexComponents, PhantomComponents, RoundTrip,
};
use entity_engine::ecs::component_managers::{ComponentManagers, ManagerLookup, NoManagers};
use entity_engine::ecs::component_map::ComponentMap;
use entity_engine::ecs::entity::{index_of, Entity, EntityManager};
use entity_engine::ecs::iter::{EntityIter, WithComponent, WithoutComponent};
use entity_engine::ecs::mapper::{
    entities_filtered, intersect, select, ComponentMapper, ComponentMappers, Filterable,
};
use entity_engine::ecs::offset_table::ComponentId;
use entity_engine::ecs::query::{ColdQuery, QueryItem, QuerySpec};
use entity_engine::ecs::simple;
use entity_engine::ecs::vec_managers::VecManager;
use entity_engine::ecs::vec_mapper::VecMapper;

fn next(em: &mut EntityManager) -> Entity {
    em.next_entity(Offset::new(Granularity::Small, 0))
}

fn sorted(mut v: Vec<Entity>) -> Vec<u32> {
    v.sort();
    v.iter().map(|e| e.id()).collect()
}

fn ids(v: &[Entity]) -> Vec<u32> {
    sorted(v.to_vec())
}

#[derive(Debug, PartialEq, Eq)]
struct Counter(usize);

#[test]
fn map_basics() {
    let mut em = EntityManager::new();
    let mut map: ComponentMap<Counter> = ComponentMap::new();

    let first = next(&mut em);
    let second = next(&mut em);
    let third = next(&mut em);
    em.destroy_entity(third);

    {
        let mut handle = map.supply(&em);
        handle.set(first, Counter(0));
        // third is dead, set doesn't work.
        handle.set(third, Counter(1));

        assert_eq!(handle.get(first), Some(&Counter(0)));
        assert_eq!(handle.get(second), None);
        assert_eq!(handle.get(third), None); // third entity is not alive.

        assert_eq!(handle.remove(first), Some(Counter(0)));
        assert_eq!(handle.remove(second), None);
        assert_eq!(handle.remove(third), None);
    }
}

#[test]
fn map_tells_entities_of_one_slot_apart() {
    let mut em = EntityManager::new();
    let mut map: ComponentMap<u32> = ComponentMap::new();
    let es = em.next_entities(1025);
    map.supply(&em).set(es[0], 7);
    for e in es.iter() {
        em.destroy_entity(*e);
    }
    let newcomer = next(&mut em);
    assert_eq!(index_of(newcomer), index_of(es[0]));
    assert_ne!(newcomer, es[0]);
    let mut handle = map.supply(&em);
    assert_eq!(handle.get(newcomer), None);
    assert_eq!(handle.get_mut(newcomer), None);
    assert_eq!(handle.remove(newcomer), None);
    handle.set(newcomer, 8);
    assert_eq!(handle.get(newcomer), Some(&8));
    assert_eq!(handle.get(es[0]), None);
    assert_eq!(handle.remove(newcomer), Some(8));
    assert_eq!(handle.get(newcomer), None);
}

#[test]
fn map_reuses_what_was_removed() {
    let mut em = EntityManager::new();
    let mut map: ComponentMap<u32> = ComponentMap::new();
    let es = em.next_entities(5);
    let mut handle = map.supply(&em);
    for (n, e) in es.iter().enumerate() {
        handle.set(*e, n as u32);
    }
    assert_eq!(handle.remove(es[1]), Some(1));
    assert_eq!(handle.remove(es[3]), Some(3));
    assert_eq!(handle.remove(es[3]), None);
    handle.set(es[3], 33);
    handle.set(es[1], 11);
    *handle.get_mut(es[0]).unwrap() = 100;
    let all: Vec<u32> = es.iter().map(|e| *handle.get(*e).unwrap()).collect();
    assert_eq!(all, vec![100, 11, 2, 33, 4]);
}

fn mapper_basics<M: ComponentMapper<Component = u32>>(mut m: M) {
    let a = Entity::new(0, 0);
    let b = Entity::new(5, 1);
    let c = Entity::new(3, 0);
    assert!(m.get(a).is_none());
    m.set(a, 1);
    m.set(b, 2);
    m.set(a, 3);
    assert_eq!(m.get(a), Some(&3));
    assert_eq!(m.index(b), &2);
    assert!(m.get(c).is_none());
    assert!(m.get_mut(c).is_none());
    *m.get_mut(b).unwrap() += 10;
    assert_eq!(m.get(b), Some(&12));
    assert_eq!(sorted(m.entities()), ids(&[a, b]));
    m.set(c, 4);
    m.remove(a);
    m.remove(a);
    assert!(m.get(a).is_none());
    assert_eq!(m.get(b), Some(&12));
    assert_eq!(m.get(c), Some(&4));
    assert_eq!(sorted(m.entities()), ids(&[b, c]));
}

#[test]
fn vec_mapper_basics() {
    mapper_basics(VecMapper::new());
}

#[test]
fn vec_manager_basics() {
    mapper_basics(VecManager::new());
}

#[derive(Clone, Debug, PartialEq)]
struct Data(u32);

impl Filterable for Data {
    type Filter = u32;

    // for the proofs alone.
    fn passes(&self, _: &u32) -> bool {
        unreachable!()
    }

    fn fits(&self, filter: &u32) -> bool {
        self.0 > *filter
    }
}

const POS: ComponentId = 1;
const VEL: ComponentId = 2;

fn example() -> (ComponentMappers<VecMapper<Data>>, Vec<Entity>) {
    let es: Vec<Entity> = (0..4).map(|n| Entity::new(n, 0)).collect();
    let mut pos = VecMapper::new();
    let mut vel = VecMapper::new();
    pos.set(es[0], Data(1));
    pos.set(es[1], Data(2));
    pos.set(es[2], Data(3));
    vel.set(es[1], Data(4));
    vel.set(es[2], Data(5));
    vel.set(es[3], Data(6));
    let mut mappers = ComponentMappers::new();
    mappers.insert(POS, pos);
    mappers.insert(VEL, vel);
    (mappers, es)
}

#[test]
fn queries_combine_components() {
    let (mappers, es) = example();
    assert!(mappers.has_mapper(POS));
    assert!(!mappers.has_mapper(7));
    let both = mappers.query().with_component(POS).with_component(VEL).into_iter();
    assert_eq!(sorted(both), ids(&[es[1], es[2]]));
    let only = mappers.query().with_component(POS).without_component(VEL).into_iter();
    assert_eq!(sorted(only), ids(&[es[0]]));
    let some = mappers.query().with_component_filtered(POS, &1).with_component(VEL).into_iter();
    assert_eq!(sorted(some), ids(&[es[1], es[2]]));
    let none = mappers.query().with_component_filtered(POS, &9).into_iter();
    assert_eq!(none, vec![]);
    assert_eq!(mappers.query().without_component(POS).into_iter(), vec![]);
    assert_eq!(sorted(entities_filtered(mappers.get_mapper(VEL), &4)), ids(&[es[2], es[3]]));
}

#[test]
fn sets_of_entities() {
    let (_, es) = example();
    let candidates = vec![vec![es[0], es[1], es[2]], vec![es[2], es[1]]];
    let disallowed = vec![vec![es[2]]];
    assert_eq!(sorted(intersect(&candidates, &disallowed)), ids(&[es[1]]));
    assert_eq!(sorted(select(&candidates, &vec![])), ids(&[es[1], es[2]]));
    assert_eq!(select(&vec![], &disallowed), vec![]);
}

#[test]
fn iterators_narrow_down() {
    let (mut mappers, es) = example();
    mappers.get_mapper_mut(POS).remove(es[2]);
    let with = WithComponent::new(&mappers, POS);
    assert!(with.keeps(es[0]));
    assert!(!with.keeps(es[2]));
    let filtered = WithComponent::new_filtered(&mappers, VEL, &4);
    assert!(!filtered.keeps(es[1]));
    assert!(filtered.keeps(es[3]));
    let without = WithoutComponent::new(&mappers, VEL);
    assert!(without.keeps(es[0]));
    assert!(!without.keeps(es[3]));
    let mut it = EntityIter::new(&mappers, es.clone()).with_component(POS).without_component(VEL);
    assert_eq!(it.next(), Some(es[0]));
    assert_eq!(it.next(), None);
    let mut it = EntityIter::new(&mappers, es.clone()).with_component_filtered(VEL, &5);
    assert_eq!(it.next(), Some(es[3]));
    assert_eq!(it.next(), None);
}

#[test]
fn managers_are_looked_up_by_depth() {
    let mut a: VecManager<Data> = VecManager::new();
    let e = Entity::new(0, 0);
    let f = Entity::new(1, 0);
    a.set(e, Data(1));
    a.set(f, Data(2));
    let mut b: VecManager<Data> = VecManager::new();
    b.set(f, Data(3));
    let mut managers = ComponentManagers::new(POS, a).and(VEL, b);
    assert_eq!(managers.depth_of(VEL), Ok(2));
    assert_eq!(managers.depth_of(POS), Ok(1));
    assert_eq!(managers.depth_of(9), Err(2));
    assert!(managers.lookup(9).is_none());
    assert_eq!(managers.lookup(POS).unwrap().get(e), Some(&Data(1)));
    managers.lookup_mut(POS).unwrap().set(e, Data(10));
    assert!(managers.lookup_mut(9).is_none());

    let spec = QuerySpec::new().with_component(POS).ok().unwrap();
    let spec = spec.with_component(VEL).ok().unwrap();
    assert!(spec.has(POS));
    assert_eq!(spec.num_components(), 2);
    assert_eq!(spec.depths(&managers), vec![1, 2]);
    assert_eq!(spec.load(&managers, f), Some(vec![Data(2), Data(3)]));
    assert_eq!(spec.load(&managers, e), None);
    // a component is asked for once.
    let spec = spec.with_component(POS).err().unwrap();
    assert_eq!(spec.num_components(), 2);

    let mut query = ColdQuery::new(spec, &managers);
    {
        let item = query.next().unwrap();
        assert_eq!(item.entity(), f);
        assert_eq!(item.get(POS), Some(&Data(2)));
        assert_eq!(item.get(VEL), Some(&Data(3)));
        assert_eq!(item.get(9), None);
    }
    assert!(query.next().is_none());
    let none: NoManagers<VecManager<Data>> = NoManagers::new();
    assert_eq!(none.depth_of(POS), Err(0));
}

struct Held(u32);

struct Other;

impl Component for Held {
    type Value = u32;

    // for the proofs alone.
    fn spec_id() -> ComponentId {
        unreachable!()
    }

    fn spec_dependencies() -> vstd::seq::Seq<ComponentId> {
        unreachable!()
    }

    fn unpacked(_: u32) -> Option<Held> {
        unreachable!()
    }

    fn id() -> ComponentId {
        1
    }

    fn dependencies() -> Vec<ComponentId> {
        Vec::new()
    }

    fn pack(self) -> u32 {
        self.0
    }

    fn unpack(v: u32) -> Option<Held> {
        Some(Held(v))
    }

    fn peek(_: &u32) -> Option<&Held> {
        None
    }

    fn peek_mut(_: &mut u32) -> Option<&mut Held> {
        None
    }
}

impl Component for Other {
    type Value = u32;

    // for the proofs alone.
    fn spec_id() -> ComponentId {
        unreachable!()
    }

    fn spec_dependencies() -> vstd::seq::Seq<ComponentId> {
        unreachable!()
    }

    fn unpacked(_: u32) -> Option<Other> {
        unreachable!()
    }

    fn id() -> ComponentId {
        2
    }

    fn dependencies() -> Vec<ComponentId> {
        Vec::new()
    }

    fn pack(self) -> u32 {
        0
    }

    fn unpack(_: u32) -> Option<Other> {
        Some(Other)
    }

    fn peek(_: &u32) -> Option<&Other> {
        None
    }

    fn peek_mut(_: &mut u32) -> Option<&mut Other> {
        None
    }
}

#[test]
fn lists_of_component_maps() {
    let phantoms = component_list::Empty::new().push::<Held>();
    assert!(phantoms.has::<Held>());
    assert!(!phantoms.has::<Other>());
    let mut components = phantoms.push::<Other>().into_components();
    let mut em = EntityManager::new();
    let e = next(&mut em);
    components.get_mut(1).supply(&em).set(e, 5);
    assert_eq!(components.get_mut(1).supply(&em).get(e), Some(&5));
    assert_eq!(components.get_mut(2).supply(&em).get(e), None);
    let _: &ComponentMap<u32> = components.get(2);
}

fn through_mutexes<T: RoundTrip>(components: T) -> <T as IntoMutexComponents>::Output {
    components.into_mutex_components()
}

#[test]
fn component_maps_behind_mutexes() {
    let mut em = EntityManager::new();
    let e = next(&mut em);
    let mut components =
        component_list::Empty::new().push::<Held>().push::<Other>().into_components();
    components.get_mut(1).supply(&em).set(e, 5);
    let locked = through_mutexes(components);
    {
        let mut first = locked.lock(1);
        // the other map is not locked.
        let second = locked.lock(2);
        assert_eq!(first.map.supply(&em).get(e), Some(&5));
        first.map.supply(&em).set(e, 6);
        first.release();
        second.release();
    }
    let mut components = locked.into_components();
    assert_eq!(components.get_mut(1).supply(&em).get(e), Some(&6));
    assert_eq!(components.get_mut(2).supply(&em).get(e), None);
}

#[test]
fn simple_entities() {
    let mut em = simple::EntityManager::new();
    let a = em.next();
    let more = em.next_n(3);
    assert_eq!(more.len(), 3);
    assert!(em.alive(&a));
    assert!(em.alive(&more[2]));
    assert!(!more.contains(&a));
    assert!(!em.alive(&simple::EntityManager::new().next_n(9)[8]));
}
