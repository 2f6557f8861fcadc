use ze_engine::ecs::access::Access;
use ze_engine::ecs::component::{Component, ComponentId, ComponentInfo, ComponentRegistry};
use ze_engine::ecs::entity::EntityRegistry;
use ze_engine::ecs::erased_vec::{TypeErasedVec, TypeInfo};
use ze_engine::ecs::sparse_set::{SparseSet, TypeErasedSparseSet};
use ze_engine::ecs::query::{QueryState, QueryTerm};
use ze_engine::ecs::world::World;

#[test]
fn is_disjoint() {
    let mut a = Access::default();
    let mut b = Access::default();

    a.add_read(0);
    a.add_read(1);
    a.add_read(2);
    a.add_write(3);

    b.add_write(0);
    b.add_read(1);
    b.add_write(2);
    b.add_write(3);

    assert!(!a.is_disjoint(&b));
}

#[test]
fn union() {
    let mut a = Access::default();
    let mut b = Access::default();

    a.add_read(0);
    a.add_read(1);
    a.add_read(2);
    a.add_write(3);
    a.add_read(4);

    b.add_write(0);
    b.add_read(1);
    b.add_write(2);
    b.add_write(3);
    b.add_read(4);

    a.union(&b);

    assert!(a.has_write(0));
    assert!(a.has_read(1));
    assert!(a.has_write(2));
    assert!(a.has_write(3));
    assert!(a.has_read(4));
}

#[test]
fn reads_only_are_disjoint_either_way() {
    let mut a = Access::default();
    let mut b = Access::default();
    a.add_read(0);
    b.add_read(0);
    b.add_write(1);
    assert!(a.is_disjoint(&b));
    assert!(b.is_disjoint(&a));
    a.add_read(1);
    assert!(!a.is_disjoint(&b));
    assert!(!b.is_disjoint(&a));
}

#[test]
fn add_read_keeps_every_other_bit() {
    let mut a = Access::default();
    a.add_read(5);
    assert_eq!(a.len(), 6);
    assert!(a.has_read(5));
    a.add_read(1);
    assert!(a.has_read(1));
    assert!(a.has_read(5));
    assert_eq!(a.len(), 8);
    a.add_write(3);
    assert!(a.has_write(3));
    assert!(a.has_read(3));
    assert!(a.has_read(5));
    assert!(!a.has_write(5));
    a.add_read(0);
    assert!(a.has_write(3));
    assert!(a.has_read(5));
    a.clear();
    assert_eq!(a.len(), 0);
}

#[test]
fn union_keeps_the_bits_of_both_sides() {
    let mut a = Access::default();
    let mut b = Access::default();
    a.add_write(5);
    b.add_read(0);
    a.union(&b);
    assert!(a.has_write(5));
    assert!(a.has_read(5));
    assert!(a.has_read(0));
    assert!(!a.has_write(0));
    let mut c = Access::default();
    c.add_write(7);
    b.union(&c);
    assert!(b.has_read(0));
    assert!(b.has_write(7));
}

#[test]
fn registry_register_and_get() {
    struct MyComponent {
        _a: i32,
        _b: i32,
        _c: Vec<u128>,
    }

    impl Component for MyComponent {
        fn component_id() -> ComponentId {
            0
        }
    }

    let mut registry = ComponentRegistry::default();
    registry.register(0, ComponentInfo::new::<MyComponent>());
    let info = registry.get(&0).unwrap();
    assert_eq!(info.type_info.size, std::mem::size_of::<MyComponent>());
    assert_eq!(info.type_info.align, std::mem::align_of::<MyComponent>());
    assert!(registry.contains(&0));
    assert!(!registry.contains(&1));
    assert!(registry.get(&1).is_none());
}

#[test]
fn allocate_first_entity() {
    let mut registry = EntityRegistry::default();
    let entity = registry.allocate();
    assert_eq!(entity.generation(), 0);
    assert_eq!(entity.id(), 0);
    assert!(registry.is_valid(entity));
}

#[test]
fn free() {
    let mut registry = EntityRegistry::default();
    let entity = registry.allocate();
    registry.free(entity);
    assert!(!registry.is_valid(entity));
}

#[test]
fn id_recycling() {
    let mut registry = EntityRegistry::default();
    let entity = registry.allocate();
    registry.free(entity);
    assert!(!registry.is_valid(entity));

    let entity = registry.allocate();
    assert_eq!(entity.generation(), 1);
    assert_eq!(entity.id(), 0);
    assert!(registry.is_valid(entity));
}

#[test]
fn freed_ids_are_reused_last_first() {
    let mut registry = EntityRegistry::default();
    let a = registry.allocate();
    let b = registry.allocate();
    assert_eq!(registry.count(), 2);
    registry.free(a);
    registry.free(b);
    assert_eq!(registry.count(), 0);
    let c = registry.allocate();
    assert_eq!(c.id(), b.id());
    let d = registry.allocate();
    assert_eq!(d.id(), a.id());
    assert_eq!(registry.next_id(), 2);
    assert!(registry.can_alloc());
}

#[test]
fn erased_vec_push() {
    let numbers: Vec<i32> = vec![0, 1, 2, 3, 4, 5, 6, 7, 8, 9];
    let mut vec = TypeErasedVec::new(TypeInfo::new::<i32>());
    for n in numbers.iter().take(3) {
        assert!(vec.can_push_value());
        vec.push(&n.to_ne_bytes());
    }
    let at = |vec: &TypeErasedVec, index: usize| {
        let bytes = vec.get(index);
        i32::from_ne_bytes([bytes[0], bytes[1], bytes[2], bytes[3]])
    };

    assert_eq!(vec.len(), 3);
    assert_eq!(at(&vec, 0), numbers[0]);
    assert_eq!(at(&vec, 1), numbers[1]);
    assert_eq!(at(&vec, 2), numbers[2]);

    vec.clear();
    assert_eq!(vec.len(), 0);
}

#[test]
fn erased_vec_swap_remove_moves_the_last_element() {
    let mut vec = TypeErasedVec::new(TypeInfo::new::<u16>());
    for n in [10u16, 20, 30] {
        vec.push(&n.to_ne_bytes());
    }
    vec.swap_remove(0);
    assert_eq!(vec.len(), 2);
    assert_eq!(vec.get(0), &30u16.to_ne_bytes().to_vec());
    assert_eq!(vec.get(1), &20u16.to_ne_bytes().to_vec());
    vec.write(1, &7u16.to_ne_bytes());
    assert_eq!(vec.get(1), &7u16.to_ne_bytes().to_vec());
}

#[test]
fn erased_vec_of_zero_sized_values_is_unbounded() {
    let mut vec = TypeErasedVec::new(TypeInfo::new::<()>());
    assert!(vec.can_push_value());
    vec.push(&[]);
    vec.push(&[]);
    assert_eq!(vec.len(), 2);
}

#[test]
fn sparse_set_insert() {
    let mut set = SparseSet::new();
    set.insert(1000, 120);
    set.insert(0, 10);
    set.insert(1, 20);
    set.insert(2, 40);
    assert_eq!(set.len(), 4);
    assert_eq!(*set.get(1000).unwrap(), 120);
    assert_eq!(*set.get(0).unwrap(), 10);
    assert_eq!(*set.get(1).unwrap(), 20);
    assert_eq!(*set.get(2).unwrap(), 40);
    assert!(set.get(3).is_none());
}

#[test]
fn sparse_set_replace_gives_back_the_old_value() {
    let mut set = SparseSet::new();
    set.insert(4, 'a');
    let old = set.replace(4, 'b');
    assert_eq!(old, 'a');
    assert_eq!(*set.get(4).unwrap(), 'b');
    assert_eq!(set.len(), 1);
}

fn insert_typed(set: &mut TypeErasedSparseSet, index: usize, value: u128) -> usize {
    assert_eq!(TypeInfo::new::<u128>(), set.type_info());
    assert!(set.can_insert_value());
    set.insert_unchecked(index, &value.to_ne_bytes())
}

fn get_typed(set: &TypeErasedSparseSet, index: usize) -> Option<u128> {
    set.get(index).map(|bytes| {
        let mut raw = [0u8; 16];
        raw.copy_from_slice(bytes);
        u128::from_ne_bytes(raw)
    })
}

#[test]
fn type_erased_sparse_set_insert() {
    let mut set = TypeErasedSparseSet::new(TypeInfo::new::<u128>());
    assert_eq!(insert_typed(&mut set, 1000, 10), 0);
    assert_eq!(insert_typed(&mut set, 0, 20), 1);
    insert_typed(&mut set, 1, 30);
    insert_typed(&mut set, 2, 40);
    assert_eq!(set.len(), 4);
    assert_eq!(get_typed(&set, 1000), Some(10));
    assert_eq!(get_typed(&set, 0), Some(20));
    assert_eq!(get_typed(&set, 1), Some(30));
    assert_eq!(get_typed(&set, 2), Some(40));
}

#[test]
fn remove() {
    let mut set = TypeErasedSparseSet::new(TypeInfo::new::<u128>());
    insert_typed(&mut set, 0, 10);
    insert_typed(&mut set, 1, 20);
    insert_typed(&mut set, 2, 40);
    insert_typed(&mut set, 3, 60);
    assert_eq!(set.len(), 4);
    set.remove(2);
    assert_eq!(set.len(), 3);
    assert_eq!(get_typed(&set, 0), Some(10));
    assert_eq!(get_typed(&set, 1), Some(20));
    assert!(get_typed(&set, 2).is_none());
    assert_eq!(get_typed(&set, 3), Some(60));
}

#[test]
fn remove_the_first_of_several() {
    let mut set = TypeErasedSparseSet::new(TypeInfo::new::<u128>());
    insert_typed(&mut set, 5, 1);
    insert_typed(&mut set, 6, 2);
    insert_typed(&mut set, 7, 3);
    set.remove(5);
    assert!(get_typed(&set, 5).is_none());
    assert_eq!(get_typed(&set, 6), Some(2));
    assert_eq!(get_typed(&set, 7), Some(3));
    set.write(7, &9u128.to_ne_bytes());
    assert_eq!(get_typed(&set, 7), Some(9));
}

fn register(world: &mut World, id: ComponentId, info: TypeInfo) {
    world.register_component(id, ComponentInfo { type_info: info });
}

fn add(world: &mut World, entity: ze_engine::ecs::entity::Entity, id: ComponentId, value: Vec<u8>) {
    assert!(world.row_in_bounds(entity));
    assert!(world.can_add_component(entity, id));
    world.add_component(entity, id, value);
}

#[test]
fn add_remove_query() {
    let mut world = World::default();
    register(&mut world, 0, TypeInfo::new::<i32>());
    register(&mut world, 1, TypeInfo::new::<f32>());

    let entity = world.spawn();
    add(&mut world, entity, 0, 2201i32.to_ne_bytes().to_vec());
    add(&mut world, entity, 1, 22.01f32.to_ne_bytes().to_vec());

    let entity2 = world.spawn();
    add(&mut world, entity2, 0, 2201i32.to_ne_bytes().to_vec());

    for e in [entity, entity2] {
        assert_eq!(world.get_component(e, 0).unwrap(), &2201i32.to_ne_bytes().to_vec());
    }
    assert_eq!(world.get_component(entity, 1).unwrap(), &22.01f32.to_ne_bytes().to_vec());
    assert!(world.get_component(entity2, 1).is_none());
    assert_eq!(world.components_of(entity), vec![0, 1]);
    assert_eq!(world.components_of(entity2), vec![0]);

    let mut query = QueryState::new(vec![QueryTerm::Read(0)], &world);
    let mut seen = 0;
    for e in query.entities(&world) {
        let values = query.get(&world, e).unwrap();
        assert_eq!(i32::from_ne_bytes(values[0].unwrap()[..].try_into().unwrap()), 2201);
        seen += 1;
    }
    assert_eq!(seen, 2);

    let mut query = QueryState::new(vec![QueryTerm::Write(1)], &world);
    let matching = query.entities(&world);
    assert_eq!(matching, vec![entity]);
    for e in matching {
        let values = query.get(&world, e).unwrap();
        assert_eq!(f32::from_ne_bytes(values[0].unwrap()[..].try_into().unwrap()), 22.01);
        assert!(world.set_component(e, 1, &69.01f32.to_ne_bytes()));
    }

    let mut query = QueryState::new(vec![QueryTerm::Read(0), QueryTerm::Read(1)], &world);
    let matching = query.entities(&world);
    assert_eq!(matching.len(), 1);
    for e in matching {
        let values = query.get(&world, e).unwrap();
        assert_eq!(i32::from_ne_bytes(values[0].unwrap()[..].try_into().unwrap()), 2201);
        assert_eq!(f32::from_ne_bytes(values[1].unwrap()[..].try_into().unwrap()), 69.01);
    }
    assert!(!world.set_component(entity2, 1, &1.0f32.to_ne_bytes()));
    assert!(!world.set_component(entity, 1, &[1u8]));

    assert!(world.can_remove_component(entity, 0));
    world.remove_component(entity, 0);
    assert!(world.get_component(entity, 0).is_none());
    assert_eq!(world.get_component(entity, 1).unwrap(), &69.01f32.to_ne_bytes().to_vec());
    assert_eq!(world.components_of(entity), vec![1]);
    assert_eq!(world.get_component(entity2, 0).unwrap(), &2201i32.to_ne_bytes().to_vec());
}

#[test]
fn destroy() {
    let mut world = World::default();
    register(&mut world, 0, TypeInfo::new::<u64>());
    register(&mut world, 1, TypeInfo::new::<()>());

    let entity = world.spawn();
    add(&mut world, entity, 0, 7u64.to_ne_bytes().to_vec());
    add(&mut world, entity, 1, Vec::new());
    assert_eq!(world.components_of(entity), vec![0, 1]);
    // Component 0 stands for a value with a destructor: it is live until the world
    // hands its bytes back, which happens once.
    let mut live = 1;
    let removed = world.remove_component(entity, 1);
    assert_eq!(removed, Vec::<u8>::new());
    assert_eq!(live, 1);
    assert_eq!(world.components_of(entity), vec![0]);
    assert!(world.get_component(entity, 0).is_some());
    for (component, value) in world.destroy(entity) {
        assert_eq!(component, 0);
        assert_eq!(value, 7u64.to_ne_bytes().to_vec());
        live -= 1;
    }
    assert_eq!(live, 0);
    assert!(!world.is_valid(entity));
    assert!(world.get_component(entity, 0).is_none());
}

#[test]
fn erased_vec_drop() {
    let mut vec = TypeErasedVec::new(TypeInfo::new::<u64>());
    let mut counter = 1;
    vec.push(&0xD50u64.to_ne_bytes());
    let removed = vec.swap_remove(0);
    assert_eq!(removed, 0xD50u64.to_ne_bytes().to_vec());
    counter -= 1;
    assert_eq!(counter, 0);
    assert_eq!(vec.len(), 0);
}

#[test]
fn removed_values_are_handed_back() {
    let mut world = World::default();
    register(&mut world, 0, TypeInfo::new::<u32>());
    register(&mut world, 1, TypeInfo::new::<u16>());
    let entity = world.spawn();
    add(&mut world, entity, 0, 5u32.to_ne_bytes().to_vec());
    add(&mut world, entity, 1, 9u16.to_ne_bytes().to_vec());
    assert_eq!(world.remove_component(entity, 0), 5u32.to_ne_bytes().to_vec());
    assert_eq!(world.destroy(entity), vec![(1, 9u16.to_ne_bytes().to_vec())]);

    let mut set = TypeErasedSparseSet::new(TypeInfo::new::<u8>());
    set.insert_unchecked(4, &[40]);
    set.insert_unchecked(2, &[20]);
    assert_eq!(set.remove(4), vec![40]);
    assert_eq!(set.get(2), Some(&vec![20]));
    assert!(set.get(4).is_none());
}

#[test]
fn recycling() {
    let mut world = World::default();
    let entity = world.spawn();
    let id = entity.id();
    world.destroy(entity);
    assert!(!world.is_valid(entity));

    let entity2 = world.spawn();
    assert_eq!(entity2.id(), id);
    assert_eq!(entity2.generation(), 1);
    assert!(!world.is_valid(entity));
    assert!(world.is_valid(entity2));
}

#[test]
fn components_move_with_their_entity() {
    let mut world = World::default();
    register(&mut world, 3, TypeInfo::new::<u8>());
    register(&mut world, 4, TypeInfo::new::<u8>());
    let a = world.spawn();
    add(&mut world, a, 3, vec![1]);
    add(&mut world, a, 4, vec![3]);
    let b = world.spawn();
    add(&mut world, b, 3, vec![2]);
    assert!(world.can_destroy(a));
    assert_eq!(world.get_component(a, 3).unwrap(), &vec![1]);
    assert_eq!(world.get_component(b, 3).unwrap(), &vec![2]);
    assert_eq!(world.get_component(a, 4).unwrap(), &vec![3]);
    world.destroy(a);
    assert_eq!(world.get_component(b, 3).unwrap(), &vec![2]);
    assert_eq!(world.next_entity_id(), 2);
}

#[test]
fn type_erased_sparse_set_insert_overwrites() {
    let mut set = TypeErasedSparseSet::new(TypeInfo::new::<u128>());
    assert_eq!(insert_typed(&mut set, 3, 30), 0);
    assert_eq!(insert_typed(&mut set, 5, 50), 1);
    assert_eq!(insert_typed(&mut set, 3, 33), 0);
    assert_eq!(get_typed(&set, 3), Some(33));
    assert_eq!(get_typed(&set, 5), Some(50));
    set.remove(5);
    assert_eq!(get_typed(&set, 3), Some(33));
    assert!(get_typed(&set, 5).is_none());
}
