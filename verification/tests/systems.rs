use ze_engine::ecs::access::Access;
use ze_engine::ecs::system::executor::{ParallelExecutor, SequentialExecutor};
use ze_engine::ecs::system::registry::{
    DependencyKind, NodeId, RegistryError, ScheduleError, SystemRegistry,
};
use ze_engine::ecs::system::schedule::Schedule;
use ze_engine::ecs::system::{IntoSystemId, IntoSystemSetDesc, SystemDesc, SystemId, SystemSetDesc};

fn id(name: &'static str) -> SystemId {
    name.system_id()
}

fn add_set(registry: &mut SystemRegistry, desc: SystemSetDesc) -> NodeId {
    assert!(registry.check_system_set(&desc).is_none());
    registry.add_system_set(desc)
}

fn add_system(registry: &mut SystemRegistry, desc: SystemDesc) -> NodeId {
    assert!(registry.check_system(&desc).is_none());
    registry.add_system(desc)
}

/// Runs `schedule` one system at a time; `set_condition` and `system_condition` give
/// the result of the run conditions of a node, `run` runs a system.
fn run_sequential(
    schedule: &Schedule,
    set_condition: &dyn Fn(NodeId) -> bool,
    system_condition: &dyn Fn(NodeId) -> bool,
    run: &mut dyn FnMut(NodeId),
) {
    let mut executor = SequentialExecutor::default();
    executor.initialize(schedule);
    for system_idx in 0..schedule.systems.len() {
        if !executor.begin_system(system_idx) {
            continue;
        }
        let sets = executor.sets_to_evaluate(schedule, system_idx);
        let results: Vec<bool> = sets.iter().map(|&s| set_condition(schedule.sets[s])).collect();
        if !executor.apply_set_results(schedule, &sets, &results) {
            continue;
        }
        let node = schedule.systems[system_idx];
        if executor.apply_system_result(system_idx, system_condition(node)) {
            run(node);
        }
    }
}

/// Runs `schedule` with the parallel executor's decisions, starting every system that
/// may start and completing the started ones in order of start.
fn run_parallel(
    schedule: &Schedule,
    accesses: Vec<Access>,
    set_condition: &dyn Fn(NodeId) -> bool,
    run: &mut dyn FnMut(NodeId),
) -> usize {
    let mut executor = ParallelExecutor::default();
    let set_conditions = vec![Vec::new(); schedule.sets.len()];
    let system_conditions = vec![Vec::new(); schedule.systems.len()];
    executor.initialize(schedule, accesses, set_conditions, system_conditions);
    executor.begin_run();
    let mut max_running = 0;
    while !executor.is_finished() {
        let mut started = Vec::new();
        for system_idx in executor.ready_systems() {
            if !executor.can_start(system_idx) {
                continue;
            }
            let sets = executor.sets_to_evaluate(schedule, system_idx);
            let results: Vec<bool> = sets.iter().map(|&s| set_condition(schedule.sets[s])).collect();
            let sets_hold = executor.apply_set_results(schedule, &sets, &results);
            if !sets_hold || !executor.apply_system_result(system_idx, true) {
                executor.skip_system(system_idx);
                continue;
            }
            assert!(executor.try_start_system(system_idx));
            started.push(system_idx);
        }
        max_running = max_running.max(started.len());
        for system_idx in started {
            run(schedule.systems[system_idx]);
            executor.complete_system(system_idx);
        }
        executor.refresh_current_access();
    }
    max_running
}

fn conditions_registry() -> (SystemRegistry, NodeId, NodeId, NodeId, NodeId) {
    let mut registry = SystemRegistry::default();
    let x = add_set(&mut registry, SystemSetDesc::new(id("X")));
    let y = add_set(&mut registry, id("Y").in_set(id("X")));
    let a = add_system(&mut registry, SystemDesc::new().id(id("A")).in_set(id("X")));
    let b = add_system(&mut registry, SystemDesc::new().id(id("B")).in_set(id("Y")));
    let to_initialize = registry.update().unwrap();
    assert_eq!(to_initialize, vec![x, y, a, b]);
    (registry, x, y, a, b)
}

#[test]
fn sequential_test_conditions() {
    let (registry, _x, y, a, b) = conditions_registry();
    let schedule = registry.schedule(&id("X")).unwrap();
    let mut ran = Vec::new();
    run_sequential(schedule, &|set| set != y, &|_| true, &mut |node| {
        assert!(node != b, "system B must not run");
        ran.push(node);
    });
    assert_eq!(ran, vec![a]);
}

#[test]
fn parallel_test_conditions() {
    let (registry, _x, y, a, b) = conditions_registry();
    let schedule = registry.schedule(&id("X")).unwrap();
    let accesses = vec![Access::default(); schedule.systems.len()];
    let mut ran = Vec::new();
    run_parallel(schedule, accesses, &|set| set != y, &mut |node| {
        assert!(node != b, "system B must not run");
        ran.push(node);
    });
    assert_eq!(ran, vec![a]);
}

#[test]
fn parallel_test_exclusive_archetype_access() {
    let mut registry = SystemRegistry::default();
    add_set(&mut registry, SystemSetDesc::new(id("X")));
    add_system(&mut registry, SystemDesc::new().id(id("A")).in_set(id("X")));
    add_system(&mut registry, SystemDesc::new().id(id("B")).in_set(id("X")));
    registry.update().unwrap();
    let schedule = registry.schedule(&id("X")).unwrap();
    let mut write = Access::default();
    write.add_write(0);
    let accesses = vec![write.clone(), write];
    let mut ran = 0;
    let max_running = run_parallel(schedule, accesses, &|_| true, &mut |_| ran += 1);
    assert_eq!(ran, 2);
    assert_eq!(max_running, 1);
}

#[test]
fn systems_with_disjoint_access_start_together() {
    let mut registry = SystemRegistry::default();
    add_set(&mut registry, SystemSetDesc::new(id("X")));
    add_system(&mut registry, SystemDesc::new().id(id("A")).in_set(id("X")));
    add_system(&mut registry, SystemDesc::new().id(id("B")).in_set(id("X")));
    registry.update().unwrap();
    let schedule = registry.schedule(&id("X")).unwrap();
    let mut first = Access::default();
    first.add_write(0);
    let mut second = Access::default();
    second.add_write(1);
    let mut ran = 0;
    let max_running = run_parallel(schedule, vec![first, second], &|_| true, &mut |_| ran += 1);
    assert_eq!(ran, 2);
    assert_eq!(max_running, 2);
}

#[test]
fn dependencies_order_the_schedule() {
    let mut registry = SystemRegistry::default();
    add_set(&mut registry, SystemSetDesc::new(id("X")));
    let c = add_system(&mut registry, SystemDesc::new().id(id("C")).in_set(id("X")));
    let b = add_system(&mut registry, SystemDesc::new().id(id("B")).in_set(id("X")).before(id("C")));
    let a = add_system(&mut registry, SystemDesc::new().id(id("A")).in_set(id("X")).before(id("B")));
    registry.update().unwrap();
    let schedule = registry.schedule(&id("X")).unwrap();
    assert_eq!(schedule.systems, vec![a, b, c]);

    let mut order = Vec::new();
    run_sequential(schedule, &|_| true, &|_| true, &mut |node| order.push(node));
    assert_eq!(order, vec![a, b, c]);

    let mut order = Vec::new();
    let accesses = vec![Access::default(); 3];
    run_parallel(schedule, accesses, &|_| true, &mut |node| order.push(node));
    assert_eq!(order, vec![a, b, c]);
}

#[test]
fn a_failing_system_condition_skips_only_that_system() {
    let (registry, _x, _y, a, b) = conditions_registry();
    let schedule = registry.schedule(&id("X")).unwrap();
    let mut ran = Vec::new();
    run_sequential(schedule, &|_| true, &|node| node != a, &mut |node| ran.push(node));
    assert_eq!(ran, vec![b]);
}

#[test]
fn non_existing_dependency_is_refused() {
    let mut registry = SystemRegistry::default();
    add_set(&mut registry, SystemSetDesc::new(id("X")));
    let desc = SystemDesc::new().id(id("A")).in_set(id("X")).before(id("B"));
    match registry.check_system(&desc) {
        Some(RegistryError::UnknownId { node, dependency, kind }) => {
            assert_eq!(node.name(), "A");
            assert_eq!(dependency.name(), "B");
            assert_eq!(kind, DependencyKind::Before);
        }
        _ => panic!("an unknown dependency is refused"),
    }
}

#[test]
fn unrelated_dependency_is_refused() {
    let mut registry = SystemRegistry::default();
    add_set(&mut registry, SystemSetDesc::new(id("X")));
    add_set(&mut registry, SystemSetDesc::new(id("Y")));
    add_system(&mut registry, SystemDesc::new().id(id("A")).in_set(id("X")));
    let desc = SystemDesc::new().id(id("B")).in_set(id("Y")).before(id("A"));
    match registry.check_system(&desc) {
        Some(RegistryError::UnrelatedDependency { node, dependency }) => {
            assert_eq!(node, 3);
            assert_eq!(dependency, 2);
        }
        _ => panic!("an unrelated dependency is refused"),
    }
}

/// Adds `desc`, or panics with the reason the registry gives for refusing it.
fn add_system_or_panic(registry: &mut SystemRegistry, desc: SystemDesc) -> NodeId {
    match registry.check_system(&desc) {
        None => registry.add_system(desc),
        Some(RegistryError::UnknownId { node, dependency, .. }) => {
            panic!("System \"{}\" depends on a non existing system \"{}\"", node.name(), dependency.name())
        }
        Some(RegistryError::UnrelatedDependency { node, dependency }) => {
            panic!("Node {} depends on a node ({}) in an unrelated system set tree", node, dependency)
        }
        Some(error) => panic!("cannot add system: {:?}", error),
    }
}

#[test]
#[should_panic = "System \"A\" depends on a non existing system \"B\""]
fn non_existing_node_panic() {
    let mut registry = SystemRegistry::default();
    add_set(&mut registry, SystemSetDesc::new(id("X")));
    add_system_or_panic(&mut registry, SystemDesc::new().id(id("A")).in_set(id("X")).before(id("B")));
    add_system_or_panic(&mut registry, SystemDesc::new().id(id("B")).in_set(id("X")).before(id("A")));
}

#[test]
#[should_panic = "Node 3 depends on a node (2) in an unrelated system set tree"]
fn unrelated_dependency_panic() {
    let mut registry = SystemRegistry::default();
    add_set(&mut registry, SystemSetDesc::new(id("X")));
    add_set(&mut registry, SystemSetDesc::new(id("Y")));
    add_system_or_panic(&mut registry, SystemDesc::new().id(id("A")).in_set(id("X")));
    add_system_or_panic(&mut registry, SystemDesc::new().id(id("B")).in_set(id("Y")).before(id("A")));
}

#[test]
fn other_registry_errors() {
    let mut registry = SystemRegistry::default();
    add_set(&mut registry, SystemSetDesc::new(id("X")));
    assert!(matches!(registry.check_system(&SystemDesc::new()), Some(RegistryError::MissingSystemId)));
    assert!(matches!(
        registry.check_system(&SystemDesc::new().id(id("A"))),
        Some(RegistryError::SystemWithoutParent)
    ));
    assert!(matches!(
        registry.check_system(&SystemDesc::new().id(id("A")).in_set(id("A"))),
        Some(RegistryError::SelfDependency { kind: DependencyKind::Parent, .. })
    ));
    add_system(&mut registry, SystemDesc::new().id(id("A")).in_set(id("X")));
    assert!(matches!(
        registry.check_system(&SystemDesc::new().id(id("A")).in_set(id("X"))),
        Some(RegistryError::DuplicateSystemId(_))
    ));
    assert!(matches!(
        registry.check_system_set(&id("Z").in_set(id("W"))),
        Some(RegistryError::UnknownId { kind: DependencyKind::Parent, .. })
    ));
}

#[test]
fn a_dependency_cycle_is_refused() {
    let mut registry = SystemRegistry::default();
    add_set(&mut registry, SystemSetDesc::new(id("X")));
    add_system(&mut registry, SystemDesc::new().id(id("A")).in_set(id("X")));
    add_system(&mut registry, SystemDesc::new().id(id("B")).in_set(id("X")).before(id("A")).after(id("A")));
    assert_eq!(registry.update(), Err(ScheduleError::DependencyCycle));
}

#[test]
fn a_set_after_a_system_is_refused() {
    let mut registry = SystemRegistry::default();
    let x = add_set(&mut registry, SystemSetDesc::new(id("X")));
    let a = add_system(&mut registry, SystemDesc::new().id(id("A")).in_set(id("X")));
    let y = add_set(&mut registry, id("Y").in_set(id("X")).after(id("A")));
    assert_eq!(x, 0);
    assert_eq!(registry.update(), Err(ScheduleError::SetDependsOnSystem { system: a, set: y }));
}

#[test]
fn schedules_exist_for_root_sets_only() {
    let (registry, _x, _y, _a, _b) = conditions_registry();
    assert!(registry.schedule(&id("X")).is_some());
    assert!(registry.schedule(&id("Y")).is_none());
    assert!(registry.schedule(&id("A")).is_none());
    assert!(registry.schedule(&id("nothing")).is_none());
    let schedule = registry.schedule(&id("X")).unwrap();
    assert_eq!(schedule.systems.len(), 2);
    assert_eq!(schedule.sets.len(), 2);
}
