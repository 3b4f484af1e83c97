use entity_engine::ecs::entity::{Entity, EntityManager};
use entity_engine::ecs::mapper::{ComponentMapper, ComponentMappers};
use entity_engine::ecs::offset_table::ComponentId;
use entity_engine::ecs::systems::deferred::{
    world_handle, ComponentEdit, ComponentEdits, EntityCreationGuard, Message, Prototype,
    TypedEditHolder, WorldHandle,
};
use entity_engine::ecs::systems::{System, World, WorldBuilder};
use entity_engine::ecs::vec_mapper::VecMapper;

const HEALTH: ComponentId = 1;
const ARMOR: ComponentId = 2;

#[derive(Clone, Copy, Debug, PartialEq)]
enum Change {
    Become(i64),
    Gain(i64),
    Scale(i64),
}

impl ComponentEdit for Change {
    type Item = i64;

    // for the proofs alone.
    fn commutes(&self) -> bool {
        unreachable!()
    }

    fn combined(self, _: Change) -> Change {
        unreachable!()
    }

    fn applied(&self, _: i64) -> i64 {
        unreachable!()
    }

    fn is_commutative(&self) -> bool {
        matches!(*self, Change::Gain(_))
    }

    fn combine_with(self, other: Change) -> Change {
        match (self, other) {
            (_, Change::Become(n)) => Change::Become(n),
            (Change::Become(n), Change::Gain(m)) => Change::Become(n + m),
            (Change::Become(n), Change::Scale(m)) => Change::Become(n * m),
            (Change::Gain(n), Change::Gain(m)) => Change::Gain(n + m),
            (Change::Scale(n), Change::Scale(m)) => Change::Scale(n * m),
            (c, _) => c,
        }
    }

    fn apply(&self, item: &mut i64) {
        match *self {
            Change::Become(n) => *item = n,
            Change::Gain(n) => *item += n,
            Change::Scale(n) => *item *= n,
        }
    }
}

struct Guard;

impl Prototype for Guard {
    type Item = i64;

    // for the proofs alone.
    fn spec_components(&self) -> vstd::seq::Seq<(ComponentId, i64)> {
        unreachable!()
    }

    fn components(&self) -> Vec<(ComponentId, i64)> {
        vec![(HEALTH, 50), (ARMOR, 5)]
    }
}

enum Job {
    Spawn(usize),
    Hurt,
    Reap,
    Look(Vec<usize>),
}

type Handle<'a> = WorldHandle<'a, VecMapper<i64>, Change>;

impl System<VecMapper<i64>, Change> for Job {
    // for the proofs alone.
    fn may_send(
        _: Job,
        _: EntityManager,
        _: ComponentMappers<VecMapper<i64>>,
        _: Job,
        _: vstd::seq::Seq<Message<i64, Change>>,
    ) -> bool {
        unreachable!()
    }

    fn process<'a>(&mut self, handle: &mut Handle<'a>) {
        match self {
            Job::Spawn(n) => {
                let guard = handle.next_entities(*n).prototype(&Guard).with_component(HEALTH, 60);
                handle.create(guard);
            }
            Job::Hurt => {
                let hurt = handle.query().with_component(HEALTH).execute();
                handle.submit_changes(HEALTH, |e| (e, Change::Gain(-10)), hurt);
            }
            Job::Reap => {
                for e in handle.query().with_component(HEALTH).execute() {
                    if *handle.mappers().get_mapper(HEALTH).index(e) <= 40 {
                        handle.destroy_entity(e);
                    }
                }
            }
            Job::Look(seen) => {
                let query = handle.query().with_component(HEALTH).with_component(ARMOR);
                let found = query.execute();
                seen.push(found.len());
            }
        }
    }
}

fn world(systems: Vec<Job>) -> World<VecMapper<i64>, Job> {
    let mut builder = WorldBuilder::new()
        .with_component_mapper(HEALTH, VecMapper::new())
        .with_component_mapper(ARMOR, VecMapper::new());
    for s in systems {
        builder = builder.with_system(s);
    }
    builder.build()
}

fn values(world: &World<VecMapper<i64>, Job>, id: ComponentId) -> Vec<i64> {
    let mapper = world.mappers().get_mapper(id);
    let mut es = mapper.entities();
    es.sort();
    es.iter().map(|e| *mapper.index(*e)).collect()
}

#[test]
fn systems_spawn_and_edit() {
    let mut w = world(vec![Job::Spawn(2), Job::Hurt]);
    assert!(w.process_systems::<Change>());
    // the entities came after the query.
    assert_eq!(values(&w, HEALTH), vec![60, 60]);
    assert_eq!(values(&w, ARMOR), vec![5, 5]);
    assert!(w.process_systems::<Change>());
    assert_eq!(values(&w, HEALTH), vec![50, 50, 60, 60]);
}

#[test]
fn systems_see_the_world_as_it_was() {
    let mut w = world(vec![Job::Spawn(3), Job::Look(Vec::new())]);
    for _ in 0..3 {
        assert!(w.process_systems::<Change>());
    }
    let messages = w.run_systems::<Change>();
    assert_eq!(messages.len(), 1);
    assert!(matches!(messages[0], Message::Next(3, _)));
    assert!(w.enough_slots(&messages));
}

#[test]
fn the_dead_are_pruned() {
    let mut w = world(vec![Job::Hurt, Job::Reap]);
    let es = w.entity_manager().next_entities(4);
    for (n, e) in es.iter().enumerate() {
        w.mappers_mut().get_mapper_mut(HEALTH).set(*e, 40 + 10 * n as i64);
    }
    assert!(w.process_systems::<Change>());
    assert!(!w.entity_manager().is_alive(es[0]));
    // the edits reach the living only, and the data of the dead stays.
    assert_eq!(values(&w, HEALTH), vec![40, 40, 50, 60]);
    assert!(w.process_systems::<Change>());
    assert!(!w.entity_manager().is_alive(es[1]));
    // two of four are dead, which the next query finds.
    assert!(w.process_systems::<Change>());
    assert_eq!(w.mappers().get_mapper(HEALTH).entities().len(), 2);
    assert!(!w.entity_manager().is_alive(es[2]));
}

#[test]
fn messages_are_processed_in_order() {
    let mut w = world(vec![]);
    let e = w.entity_manager().next_entities(1)[0];
    let mut messages = std::collections::VecDeque::new();
    messages.push_back(Message::Edit(HEALTH, vec![(e, Change::Scale(3))]));
    messages.push_back(Message::Next(2, vec![(HEALTH, 1), (HEALTH, 2)]));
    messages.push_back(Message::Edit(HEALTH, vec![(e, Change::Gain(1))]));
    w.mappers_mut().get_mapper_mut(HEALTH).set(e, 7);
    w.process_messages(messages);
    assert_eq!(values(&w, HEALTH), vec![22, 2, 2]);
    let mut messages = std::collections::VecDeque::new();
    messages.push_back(Message::Edit(HEALTH, vec![(e, Change::Become(0))]));
    messages.push_back(Message::Destroy(e));
    messages.push_back(Message::Destroy(e));
    messages.push_back(Message::Prune(HEALTH));
    w.process_messages(messages);
    assert_eq!(values(&w, HEALTH), vec![2, 2]);
}

#[test]
fn guards_say_what_to_create() {
    let guard: EntityCreationGuard<i64> = EntityCreationGuard::new(2);
    match guard.finish::<Change>() {
        Message::Next(2, components) => assert!(components.is_empty()),
        _ => panic!("two entities are to be created"),
    }
    let guard = EntityCreationGuard::new(2).with_component(ARMOR, 3);
    match guard.finish::<Change>() {
        Message::Next(2, components) => assert_eq!(components, vec![(ARMOR, 3)]),
        _ => panic!("two entities are to be created"),
    }
}

#[test]
fn edits_are_merged() {
    let mut item = 10;
    ComponentEdits::<Change>::new().apply(&mut item);
    assert_eq!(item, 10);
    let edits = ComponentEdits::new()
        .push(Change::Scale(2))
        .push(Change::Gain(3))
        .push(Change::Gain(4));
    edits.apply(&mut item);
    assert_eq!(item, 27);
    // of edits that do not commute the last one counts, and it comes first.
    let edits = ComponentEdits::new()
        .push(Change::Gain(1))
        .push(Change::Scale(5))
        .push(Change::Become(2));
    edits.apply(&mut item);
    assert_eq!(item, 3);
}

#[test]
fn edits_are_held_for_the_living() {
    let mut em = EntityManager::new();
    let es = em.next_entities(3);
    let mut mapper: VecMapper<i64> = VecMapper::new();
    mapper.set(es[0], 1);
    mapper.set(es[1], 2);
    em.destroy_entity(es[1]);
    let mut holder = TypedEditHolder::new();
    holder.push(vec![
        (es[0], Change::Gain(5)),
        (es[1], Change::Gain(5)),
        (es[2], Change::Gain(5)),
        (es[0], Change::Gain(1)),
    ]);
    holder.apply(&mut mapper, &em);
    assert_eq!(mapper.get(es[0]), Some(&7));
    assert_eq!(mapper.get(es[1]), Some(&2));
    assert_eq!(mapper.get(es[2]), None);
}

fn handle_of<'a>(
    em: &'a EntityManager,
    mappers: &'a ComponentMappers<VecMapper<i64>>,
) -> Handle<'a> {
    world_handle(em, mappers)
}

#[test]
fn queries_prune_when_many_are_dead() {
    let mut em = EntityManager::new();
    let es: Vec<Entity> = em.next_entities(50);
    let mut mapper: VecMapper<i64> = VecMapper::new();
    for e in &es {
        mapper.set(*e, 1);
    }
    let mut mappers = ComponentMappers::new();
    mappers.insert(HEALTH, mapper);
    for e in &es[..10] {
        em.destroy_entity(*e);
    }
    {
        let mut handle = handle_of(&em, &mappers);
        assert!(!handle.is_alive(es[0]));
        assert_eq!(handle.query().with_component(HEALTH).execute().len(), 40);
        // a quarter as many as there are living ones is not more than a quarter.
        assert_eq!(handle.into_messages().len(), 0);
    }
    em.destroy_entity(es[10]);
    {
        // the request to prune does not wait for the execution of the query.
        let mut handle = handle_of(&em, &mappers);
        handle.query().with_component(HEALTH);
        let messages = handle.into_messages();
        assert_eq!(messages.len(), 1);
        assert!(matches!(messages[0], Message::Prune(HEALTH)));
    }
    let mut handle = handle_of(&em, &mappers);
    assert_eq!(handle.query().with_component(HEALTH).execute().len(), 39);
    let none = handle.query().with_component(HEALTH).without_component(HEALTH).execute();
    assert_eq!(none.len(), 0);
    handle.submit_change(HEALTH, es[13], Change::Become(4));
    handle.destroy_entity(es[13]);
    let messages = handle.into_messages();
    assert_eq!(messages.len(), 5);
    assert!(messages.iter().take(3).all(|m| matches!(m, Message::Prune(HEALTH))));
    assert!(matches!(messages[3], Message::Edit(HEALTH, _)));
    assert!(matches!(messages[4], Message::Destroy(_)));
}
