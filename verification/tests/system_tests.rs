use aspect_ecs::Aspect;
use aspect_ecs::AspectSystem;
use aspect_ecs::AspectSystemState;
use aspect_ecs::Store;
use aspect_ecs::System;
use aspect_ecs::World;

/// A state that writes down which entities it was handed, and in which tick.
struct Recorder {
    id: usize,
    seen: Vec<(u32, usize)>,
}

impl AspectSystemState<u32, u8> for Recorder {
    fn system_id(&self) -> usize {
        self.id
    }

    fn update(&mut self, entity: usize, tick: &u32, world: &mut Store<u8>) {
        self.seen.push((*tick, entity));
        if let Some(value) = world.get_component(0, entity) {
            *value += 1;
        }
    }
}

fn aspect_of(ids: &[usize]) -> Aspect {
    let mut aspect = Aspect::new();
    for id in ids {
        aspect.add_key(*id);
    }
    aspect
}

fn recorder(id: usize, required: &[usize]) -> AspectSystem<Recorder> {
    AspectSystem::new(aspect_of(required), Recorder { id, seen: Vec::new() })
}

fn world_with(components: usize) -> World<u32, u8, AspectSystem<Recorder>> {
    let mut world: World<u32, u8, AspectSystem<Recorder>> = World::new();
    for id in 0..components {
        world.register_component(id);
    }
    world
}

#[test]
fn a_new_system_follows_nothing() {
    let system = recorder(3, &[1, 2]);
    assert_eq!(System::<u32, u8>::system_id(&system), 3);
    assert!(system.entities().is_empty());
    assert!(system.aspect().contains(1));
    assert!(system.aspect().contains(2));
    assert!(!system.aspect().contains(0));
    assert!(system.state().seen.is_empty());
}

#[test]
fn possible_add_adopts_when_the_aspect_is_covered() {
    let mut world = world_with(3);
    let e = world.spawn();
    world.map_component(1, 0, e);
    let mut system = recorder(0, &[1, 2]);
    assert!(!System::<u32, u8>::possible_add(&mut system, world.entity(e)));
    assert!(system.entities().is_empty());
    world.map_component(2, 0, e);
    assert!(System::<u32, u8>::possible_add(&mut system, world.entity(e)));
    assert_eq!(*system.entities(), vec![e]);
}

#[test]
fn possible_remove_drops_only_what_no_longer_matches() {
    let mut world = world_with(2);
    let a = world.spawn();
    let b = world.spawn();
    world.map_component(0, 0, a);
    world.map_component(0, 0, b);
    let mut system = recorder(0, &[0]);
    assert!(System::<u32, u8>::possible_add(&mut system, world.entity(a)));
    assert!(System::<u32, u8>::possible_add(&mut system, world.entity(b)));
    assert!(!System::<u32, u8>::possible_remove(&mut system, world.entity(a)));
    assert_eq!(*system.entities(), vec![a, b]);
    world.unmap_component(0, a);
    assert!(System::<u32, u8>::possible_remove(&mut system, world.entity(a)));
    assert_eq!(*system.entities(), vec![b]);
    assert!(!System::<u32, u8>::possible_remove(&mut system, world.entity(a)));
    assert_eq!(*system.entities(), vec![b]);
}

#[test]
fn must_remove_drops_whatever_the_aspect_and_tolerates_strangers() {
    let mut world = world_with(1);
    let a = world.spawn();
    let b = world.spawn();
    let c = world.spawn();
    world.map_component(0, 0, a);
    world.map_component(0, 0, b);
    world.map_component(0, 0, c);
    let mut system = recorder(0, &[0]);
    for e in [a, b, c] {
        assert!(System::<u32, u8>::possible_add(&mut system, world.entity(e)));
    }
    System::<u32, u8>::must_remove(&mut system, world.entity(a));
    assert_eq!(*system.entities(), vec![c, b]);
    System::<u32, u8>::must_remove(&mut system, world.entity(a));
    assert_eq!(*system.entities(), vec![c, b]);
    System::<u32, u8>::must_remove(&mut system, world.entity(b));
    assert_eq!(*system.entities(), vec![c]);
}

#[test]
fn update_hands_each_followed_entity_over_once_per_tick() {
    let mut world = world_with(2);
    world.add_system(recorder(0, &[0]));
    world.add_system(recorder(1, &[0, 1]));
    let a = world.spawn();
    let b = world.spawn();
    let c = world.spawn();
    world.map_component(0, 10, a);
    world.map_component(0, 20, b);
    world.map_component(1, 0, b);
    world.map_component(1, 0, c);

    world.update(1);
    assert_eq!(world.system(0).state().seen, vec![(1, a), (1, b)]);
    assert_eq!(world.system(1).state().seen, vec![(1, b)]);
    assert_eq!(*world.peek_component(0, a).unwrap(), 11);
    assert_eq!(*world.peek_component(0, b).unwrap(), 22);

    world.map_component(0, 30, c);
    world.unmap_component(0, a);
    world.update(2);
    assert_eq!(world.system(0).state().seen, vec![(1, a), (1, b), (2, c), (2, b)]);
    assert_eq!(world.system(1).state().seen, vec![(1, b), (2, b), (2, c)]);
    assert_eq!(*world.peek_component(0, b).unwrap(), 24);
    assert_eq!(*world.peek_component(0, c).unwrap(), 32);
    assert!(world.peek_component(0, a).is_none());
}

#[test]
fn update_without_systems_or_entities_does_nothing() {
    let mut world = world_with(1);
    world.update(1);
    let e = world.spawn();
    world.update(2);
    world.add_system(recorder(0, &[0]));
    world.update(3);
    assert!(world.system(0).state().seen.is_empty());
    assert!(world.peek_component(0, e).is_none());
}
