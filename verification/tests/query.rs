use ze_engine::ecs::component::{ComponentId, ComponentInfo};
use ze_engine::ecs::entity::Entity;
use ze_engine::ecs::erased_vec::TypeInfo;
use ze_engine::ecs::query::{QueryState, QueryTerm};
use ze_engine::ecs::world::World;

fn add(world: &mut World, entity: Entity, id: ComponentId, value: Vec<u8>) {
    assert!(world.row_in_bounds(entity));
    assert!(world.can_add_component(entity, id));
    world.add_component(entity, id, value);
}

fn two_entities() -> (World, Entity, Entity) {
    let mut world = World::default();
    world.register_component(0, ComponentInfo { type_info: TypeInfo::new::<i32>() });
    world.register_component(1, ComponentInfo { type_info: TypeInfo::new::<f32>() });
    let entity = world.spawn();
    add(&mut world, entity, 0, 2201i32.to_ne_bytes().to_vec());
    add(&mut world, entity, 1, 22.01f32.to_ne_bytes().to_vec());
    let entity2 = world.spawn();
    add(&mut world, entity2, 0, 2201i32.to_ne_bytes().to_vec());
    (world, entity, entity2)
}

#[test]
fn queries_find_the_entities_that_have_their_components() {
    let (world, entity, entity2) = two_entities();

    let mut counters = QueryState::new(vec![QueryTerm::Read(0)], &world);
    let found = counters.entities(&world);
    assert_eq!(found.len(), 2);
    assert!(found.contains(&entity) && found.contains(&entity2));
    for e in found {
        let values = counters.get(&world, e).unwrap();
        assert_eq!(values, vec![Some(&2201i32.to_ne_bytes().to_vec())]);
    }

    let mut floats = QueryState::new(vec![QueryTerm::Write(1)], &world);
    assert_eq!(floats.entities(&world), vec![entity]);
    assert!(floats.get(&world, entity2).is_none());

    let mut both = QueryState::new(vec![QueryTerm::Read(0), QueryTerm::Read(1)], &world);
    assert_eq!(both.entities(&world), vec![entity]);
    let values = both.get(&world, entity).unwrap();
    assert_eq!(values[1], Some(&22.01f32.to_ne_bytes().to_vec()));
}

#[test]
fn filters_only_select() {
    let (world, entity, entity2) = two_entities();
    let mut without = QueryState::new(vec![QueryTerm::Read(0), QueryTerm::Without(1)], &world);
    assert_eq!(without.entities(&world), vec![entity2]);
    let mut with = QueryState::new(vec![QueryTerm::With(1)], &world);
    assert_eq!(with.entities(&world), vec![entity]);
    assert_eq!(with.get(&world, entity).unwrap(), vec![None]);
    assert_eq!(with.archetype_access().len(), 0);
}

#[test]
fn query_access_records_reads_and_writes() {
    let (world, _entity, _entity2) = two_entities();
    let reads = QueryState::new(vec![QueryTerm::Read(0)], &world);
    assert_eq!(reads.archetypes().len(), 2);
    assert_eq!(reads.generation(), 3);
    let access = reads.archetype_access();
    assert!(access.has_read(0));
    assert!(access.has_read(1));

    let writes = QueryState::new(vec![QueryTerm::Write(1)], &world);
    let access = writes.archetype_access();
    assert!(access.has_write(2));
    assert!(access.has_read(2));
    assert!(!access.has_write(0));
}

#[test]
fn queries_pick_up_new_archetypes() {
    let (mut world, entity, _entity2) = two_entities();
    let mut query = QueryState::new(vec![QueryTerm::Read(1)], &world);
    assert_eq!(query.entities(&world), vec![entity]);
    world.register_component(2, ComponentInfo { type_info: TypeInfo::new::<u8>() });
    let third = world.spawn();
    add(&mut world, third, 1, 1.0f32.to_ne_bytes().to_vec());
    assert!(query.collect_archetypes(&world));
    assert_eq!(query.entities(&world), vec![entity, third]);
}
