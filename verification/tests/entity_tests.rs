use aspect_ecs::Aspect;
use aspect_ecs::Entity;
use aspect_ecs::UNSET;

#[test]
fn new_entity_has_nothing() {
    let e = Entity::new(7, 3);
    assert_eq!(e.id(), 7);
    assert!(e.offsets().is_empty());
    assert!(e.aspect().is_subset(&Aspect::new()));
    assert!(e.systems().is_empty());
    assert!(!e.has_component(0));
    assert!(!e.in_system(0));
    assert_eq!(e.slot(0), None);
    assert_eq!(e.slot(100), None);
}

#[test]
fn unset_is_the_largest_offset() {
    assert_eq!(UNSET, usize::MAX);
}
