use aspect_ecs::Aspect;
use aspect_ecs::AspectSystem;
use aspect_ecs::AspectSystemState;
use aspect_ecs::Store;
use aspect_ecs::World;

//
// A world with one component type, and a system that counts its updates.
//

struct Something {
    set: bool,
}

const SOMETHING: usize = 0;

struct ContainsSystem {
    update_count: usize,
}

impl AspectSystemState<bool, Something> for ContainsSystem {
    fn system_id(&self) -> usize {
        0
    }

    fn update(&mut self, e: usize, b: &bool, world: &mut Store<Something>) {
        assert!(*b);
        self.update_count += 1;
        assert!(self.update_count == 1);

        let comp = world.get_component(SOMETHING, e).unwrap();
        comp.set = true;
    }
}

fn aspect_of(ids: &[usize]) -> Aspect {
    let mut aspect = Aspect::new();
    for id in ids {
        aspect.add_key(*id);
    }
    aspect
}

#[test]
fn test_off_on() {
    let mut world: World<bool, Something, AspectSystem<ContainsSystem>> = World::new();
    world.register_component(SOMETHING);
    world.add_system(AspectSystem::new(aspect_of(&[SOMETHING]), ContainsSystem { update_count: 0 }));
    let e = world.spawn();
    world.update(false);
    world.map_component(SOMETHING, Something { set: false }, e);
    world.update(true);
    assert!(world.get_component(SOMETHING, e).unwrap().set);
    world.unmap_component(SOMETHING, e);
    world.update(false);
}

#[test]
fn updates_follow_map_and_unmap() {
    let mut world: World<bool, Something, AspectSystem<ContainsSystem>> = World::new();
    world.register_component(SOMETHING);
    world.add_system(AspectSystem::new(aspect_of(&[SOMETHING]), ContainsSystem { update_count: 0 }));
    let e = world.spawn();
    world.update(false);
    assert_eq!(world.system(0).state().update_count, 0);
    assert!(world.system(0).entities().is_empty());

    world.map_component(SOMETHING, Something { set: false }, e);
    assert_eq!(*world.system(0).entities(), vec![e]);
    assert!(world.entity(e).in_system(0));
    world.update(true);
    assert_eq!(world.system(0).state().update_count, 1);

    world.unmap_component(SOMETHING, e);
    assert!(world.system(0).entities().is_empty());
    assert!(!world.entity(e).in_system(0));
    world.update(false);
    assert_eq!(world.system(0).state().update_count, 1);
}

//
// A world with positions and velocities, and a system that moves.
//

struct Pos {
    x: usize,
    y: usize,
}

struct Vel {
    x: usize,
    y: usize,
}

enum Part {
    Pos(Pos),
    Vel(Vel),
}

const POS: usize = 0;
const VEL: usize = 1;

fn pos_of(world: &mut World<usize, Part, AspectSystem<MovementSystem>>, e: usize) -> Option<&mut Pos> {
    match world.get_component(POS, e) {
        Some(Part::Pos(pos)) => Some(pos),
        Some(Part::Vel(_)) => panic!("the bank of positions holds a velocity"),
        None => None,
    }
}

fn vel_of(world: &mut World<usize, Part, AspectSystem<MovementSystem>>, e: usize) -> Option<&mut Vel> {
    match world.get_component(VEL, e) {
        Some(Part::Vel(vel)) => Some(vel),
        Some(Part::Pos(_)) => panic!("the bank of velocities holds a position"),
        None => None,
    }
}

struct MovementSystem;

impl AspectSystemState<usize, Part> for MovementSystem {
    fn system_id(&self) -> usize {
        0
    }

    fn update(&mut self, entity: usize, t: &usize, world: &mut Store<Part>) {
        let (vx, vy) = match world.get_component(VEL, entity).unwrap() {
            Part::Vel(vel) => (vel.x, vel.y),
            Part::Pos(_) => panic!("the bank of velocities holds a position"),
        };
        let pos = match world.get_component(POS, entity).unwrap() {
            Part::Pos(pos) => pos,
            Part::Vel(_) => panic!("the bank of positions holds a velocity"),
        };
        assert!(pos.x == (entity - 1) * (t + 1));
        pos.x += vx;
        pos.y += vy;
    }
}

fn movement_world() -> World<usize, Part, AspectSystem<MovementSystem>> {
    let mut world: World<usize, Part, AspectSystem<MovementSystem>> = World::new();
    world.register_component(POS);
    world.register_component(VEL);
    world
}

#[test]
fn test_basic_system() {
    let mut world = movement_world();
    world.add_system(AspectSystem::new(aspect_of(&[POS, VEL]), MovementSystem));

    for i in 0..5 {
        let e = world.spawn();
        world.map_component(POS, Part::Pos(Pos { x: i, y: i }), e);
        world.map_component(VEL, Part::Vel(Vel { x: i, y: i }), e);
    }

    for t in 0..10 {
        world.update(t);
    }
}

#[test]
fn ten_ticks_move_each_entity_by_ten_velocities() {
    let mut world = movement_world();
    world.add_system(AspectSystem::new(aspect_of(&[POS, VEL]), MovementSystem));

    let mut spawned = Vec::new();
    for i in 0..5 {
        let e = world.spawn();
        world.map_component(POS, Part::Pos(Pos { x: i, y: i }), e);
        world.map_component(VEL, Part::Vel(Vel { x: i, y: i }), e);
        spawned.push(e);
    }
    assert_eq!(spawned, vec![1, 2, 3, 4, 5]);
    assert_eq!(*world.system(0).entities(), vec![1, 2, 3, 4, 5]);

    for t in 0..10 {
        world.update(t);
    }

    for i in 0..5 {
        let e = spawned[i];
        let pos = pos_of(&mut world, e).unwrap();
        assert_eq!(pos.x, i + 10 * i);
        assert_eq!(pos.y, i + 10 * i);
        let vel = vel_of(&mut world, e).unwrap();
        assert_eq!(vel.x, i);
        assert_eq!(vel.y, i);
    }
}

#[test]
fn test_component_map() {
    let mut world = movement_world();

    let e1 = world.spawn();

    {
        world.map_component(POS, Part::Pos(Pos { x: 0, y: 5 }), e1);
        let c1 = pos_of(&mut world, e1);
        assert!(c1.is_some());
        let c1 = c1.unwrap();
        assert!(c1.x == 0);
        assert!(c1.y == 5);
    }
    {
        world.map_component(VEL, Part::Vel(Vel { x: 3, y: 3 }), e1);
        let c2 = vel_of(&mut world, e1);
        assert!(c2.is_some());
        let c2 = c2.unwrap();
        assert!(c2.x == 3);
        assert!(c2.y == 3);
    }
}

#[test]
fn test_component_remove() {
    let mut world = movement_world();

    let e1 = world.spawn();

    {
        world.map_component(POS, Part::Pos(Pos { x: 4, y: 4 }), e1);
        let c1 = pos_of(&mut world, e1);
        assert!(c1.is_some());
        let c1 = c1.unwrap();
        assert!(c1.x == 4);
        assert!(c1.y == 4);
    }
    {
        world.unmap_component(POS, e1);
        let c1 = pos_of(&mut world, e1);
        assert!(c1.is_none());
    }
}

#[test]
fn test_component_update() {
    let mut world = movement_world();

    let e1 = world.spawn();

    {
        world.map_component(POS, Part::Pos(Pos { x: 4, y: 4 }), e1);
        let c1 = pos_of(&mut world, e1);
        assert!(c1.is_some());
        let c1 = c1.unwrap();
        assert!(c1.x == 4);
        assert!(c1.y == 4);

        *c1 = Pos { x: 0, y: 0 };
        assert!(c1.x == 0);
        assert!(c1.y == 0);
    }
    {
        let c1 = pos_of(&mut world, e1);
        assert!(c1.is_some());
        let c1 = c1.unwrap();
        assert!(c1.x == 0);
        assert!(c1.y == 0);
    }
}

#[test]
fn component_is_absent_before_map_and_after_unmap() {
    let mut world = movement_world();
    let e = world.spawn();
    assert!(world.get_component(POS, e).is_none());
    assert!(world.get_component(VEL, e).is_none());
    world.map_component(VEL, Part::Vel(Vel { x: 1, y: 2 }), e);
    assert!(world.get_component(POS, e).is_none());
    assert_eq!(vel_of(&mut world, e).unwrap().y, 2);
    assert_eq!(*world.entity(e).offsets(), vec![usize::MAX, 0]);
    world.unmap_component(VEL, e);
    assert!(world.get_component(VEL, e).is_none());
    assert_eq!(*world.entity(e).offsets(), vec![usize::MAX, usize::MAX]);
    world.unmap_component(VEL, e);
    world.unmap_component(POS, e);
    assert!(world.get_component(VEL, e).is_none());
    assert!(world.get_component(POS, e).is_none());
}

#[test]
fn entities_keep_their_own_components() {
    let mut world = movement_world();
    let a = world.spawn();
    let b = world.spawn();
    let c = world.spawn();
    assert_eq!((a, b, c), (1, 2, 3));
    world.map_component(POS, Part::Pos(Pos { x: 1, y: 1 }), a);
    world.map_component(POS, Part::Pos(Pos { x: 2, y: 2 }), b);
    world.map_component(POS, Part::Pos(Pos { x: 3, y: 3 }), c);
    world.unmap_component(POS, b);
    assert_eq!(pos_of(&mut world, a).unwrap().x, 1);
    assert!(pos_of(&mut world, b).is_none());
    assert_eq!(pos_of(&mut world, c).unwrap().x, 3);
    let d = world.spawn();
    world.map_component(POS, Part::Pos(Pos { x: 4, y: 4 }), d);
    assert_eq!(world.entity(d).slot(POS), Some(1));
    assert_eq!(pos_of(&mut world, a).unwrap().x, 1);
    assert_eq!(pos_of(&mut world, c).unwrap().x, 3);
    assert_eq!(pos_of(&mut world, d).unwrap().x, 4);
}

#[test]
fn mapping_again_replaces_the_value_in_place() {
    let mut world = movement_world();
    let a = world.spawn();
    let b = world.spawn();
    world.map_component(POS, Part::Pos(Pos { x: 1, y: 1 }), a);
    world.map_component(POS, Part::Pos(Pos { x: 2, y: 2 }), b);
    world.map_component(POS, Part::Pos(Pos { x: 7, y: 8 }), a);
    assert_eq!(world.entity(a).slot(POS), Some(0));
    assert_eq!(world.entity(b).slot(POS), Some(1));
    assert_eq!(pos_of(&mut world, a).unwrap().y, 8);
    assert_eq!(pos_of(&mut world, b).unwrap().y, 2);
    let c = world.spawn();
    world.map_component(POS, Part::Pos(Pos { x: 3, y: 3 }), c);
    assert_eq!(world.entity(c).slot(POS), Some(2));
}

#[test]
fn system_follows_an_entity_once_it_has_both_components() {
    let mut world = movement_world();
    world.add_system(AspectSystem::new(aspect_of(&[POS, VEL]), MovementSystem));
    let e = world.spawn();
    assert!(!world.entity(e).in_system(0));
    world.map_component(POS, Part::Pos(Pos { x: 0, y: 0 }), e);
    assert!(!world.entity(e).in_system(0));
    assert!(world.system(0).entities().is_empty());
    world.map_component(VEL, Part::Vel(Vel { x: 0, y: 0 }), e);
    assert!(world.entity(e).in_system(0));
    assert_eq!(world.entity(e).systems(), vec![0]);
    assert!(world.entity(e).has_component(POS));
    assert!(world.entity(e).has_component(VEL));
    assert!(!world.entity(e).has_component(2));
    assert_eq!(*world.system(0).entities(), vec![e]);
    world.map_component(VEL, Part::Vel(Vel { x: 0, y: 0 }), e);
    assert_eq!(*world.system(0).entities(), vec![e]);
    world.unmap_component(POS, e);
    assert!(!world.entity(e).in_system(0));
    assert!(!world.entity(e).has_component(POS));
    assert!(world.entity(e).has_component(VEL));
    assert!(world.system(0).entities().is_empty());
    world.unmap_component(VEL, e);
    assert!(world.system(0).entities().is_empty());
    assert!(world.entity(e).aspect().is_subset(&Aspect::new()));
}

#[test]
fn removal_swaps_the_last_entity_into_place() {
    let mut world = movement_world();
    world.add_system(AspectSystem::new(aspect_of(&[POS]), MovementSystem));
    for _ in 0..4 {
        let e = world.spawn();
        world.map_component(POS, Part::Pos(Pos { x: 0, y: 0 }), e);
    }
    assert_eq!(*world.system(0).entities(), vec![1, 2, 3, 4]);
    world.unmap_component(POS, 2);
    assert_eq!(*world.system(0).entities(), vec![1, 4, 3]);
    world.unmap_component(POS, 3);
    assert_eq!(*world.system(0).entities(), vec![1, 4]);
    world.unmap_component(POS, 1);
    assert_eq!(*world.system(0).entities(), vec![4]);
}

#[test]
fn counts_grow_with_registrations() {
    let mut world = movement_world();
    assert_eq!(world.component_count(), 2);
    assert_eq!(world.entity_count(), 0);
    assert_eq!(world.system_count(), 0);
    world.add_system(AspectSystem::new(aspect_of(&[POS]), MovementSystem));
    assert_eq!(world.system_count(), 1);
    assert_eq!(world.spawn(), 1);
    assert_eq!(world.spawn(), 2);
    assert_eq!(world.entity_count(), 2);
    assert_eq!(world.entity(2).id(), 2);
}

#[test]
fn removing_all_components_clears_the_entity() {
    let mut world = movement_world();
    world.add_system(AspectSystem::new(aspect_of(&[POS]), MovementSystem));
    let a = world.spawn();
    let b = world.spawn();
    world.map_component(POS, Part::Pos(Pos { x: 1, y: 1 }), a);
    world.map_component(VEL, Part::Vel(Vel { x: 1, y: 1 }), a);
    world.map_component(POS, Part::Pos(Pos { x: 2, y: 2 }), b);
    assert_eq!(*world.system(0).entities(), vec![a, b]);

    world.remove_all_components(a);
    assert!(world.get_component(POS, a).is_none());
    assert!(world.get_component(VEL, a).is_none());
    assert!(world.entity(a).aspect().keys().is_empty());
    assert!(world.entity(a).systems().is_empty());
    assert_eq!(*world.entity(a).offsets(), vec![usize::MAX, usize::MAX]);
    assert_eq!(*world.system(0).entities(), vec![b]);
    assert_eq!(pos_of(&mut world, b).unwrap().x, 2);

    let c = world.spawn();
    world.map_component(POS, Part::Pos(Pos { x: 3, y: 3 }), c);
    assert_eq!(world.entity(c).slot(POS), Some(0));
    assert_eq!(pos_of(&mut world, b).unwrap().x, 2);

    world.remove_all_components(a);
    assert_eq!(*world.system(0).entities(), vec![b, c]);
}

#[test]
fn peek_reads_what_get_wrote() {
    let mut world = movement_world();
    let e = world.spawn();
    assert!(world.peek_component(POS, e).is_none());
    world.map_component(POS, Part::Pos(Pos { x: 1, y: 2 }), e);
    pos_of(&mut world, e).unwrap().x = 40;
    match world.peek_component(POS, e) {
        Some(Part::Pos(pos)) => {
            assert_eq!(pos.x, 40);
            assert_eq!(pos.y, 2);
        }
        _ => panic!("the position is missing"),
    }
    assert!(world.peek_component(VEL, e).is_none());
}

#[test]
fn a_late_system_meets_an_entity_at_its_next_mapping() {
    let mut world = movement_world();
    let e = world.spawn();
    world.map_component(POS, Part::Pos(Pos { x: 0, y: 0 }), e);
    world.add_system(AspectSystem::new(aspect_of(&[POS]), MovementSystem));
    assert!(world.system(0).entities().is_empty());
    assert!(!world.entity(e).in_system(0));
    world.map_component(VEL, Part::Vel(Vel { x: 0, y: 0 }), e);
    assert_eq!(*world.system(0).entities(), vec![e]);
    assert!(world.entity(e).in_system(0));
}

#[test]
fn a_system_that_requires_nothing_follows_every_mapped_entity() {
    let mut world = movement_world();
    world.add_system(AspectSystem::new(Aspect::new(), MovementSystem));
    let e = world.spawn();
    assert!(world.system(0).entities().is_empty());
    world.map_component(VEL, Part::Vel(Vel { x: 0, y: 0 }), e);
    assert_eq!(*world.system(0).entities(), vec![e]);
    world.unmap_component(VEL, e);
    assert_eq!(*world.system(0).entities(), vec![e]);
    world.remove_all_components(e);
    assert!(world.system(0).entities().is_empty());
}
