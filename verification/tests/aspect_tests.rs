use aspect_ecs::Aspect;

#[test]
fn test_subset() {
    let mut a1 = Aspect::new();
    assert!(a1.is_subset(&a1));

    let mut a2 = Aspect::new();
    a2.add_key(4);
    assert!(a1.is_subset(&a2));

    a1.add_key(4);
    assert!(a1.is_subset(&a2));

    a1.add_key(5);
    assert!(!a1.is_subset(&a2));
    assert!(a2.is_subset(&a1));

    a1.del_key(5);
    assert!(a1.is_subset(&a2));
}

#[test]
fn new_aspect_is_empty() {
    let a = Aspect::new();
    assert!(!a.contains(0));
    assert!(!a.contains(31));
    assert!(a.keys().is_empty());
}

#[test]
fn add_key_inserts() {
    let mut a = Aspect::new();
    a.add_key(3);
    assert!(a.contains(3));
    assert!(!a.contains(2));
    a.add_key(70);
    assert!(a.contains(3));
    assert!(a.contains(70));
    a.add_key(3);
    assert_eq!(a.keys().len(), 2);
}

#[test]
fn del_key_removes_and_tolerates_absent_keys() {
    let mut a = Aspect::new();
    a.add_key(1);
    a.add_key(2);
    a.del_key(1);
    assert!(!a.contains(1));
    assert!(a.contains(2));
    a.del_key(1);
    a.del_key(500);
    assert!(a.contains(2));
    assert_eq!(a.keys(), vec![2]);
}

#[test]
fn keys_lists_each_key_once() {
    let mut a = Aspect::new();
    a.add_key(40);
    a.add_key(0);
    a.add_key(33);
    let mut keys = a.keys();
    keys.sort();
    assert_eq!(keys, vec![0, 33, 40]);
}

#[test]
fn clone_holds_the_same_keys_and_is_independent() {
    let mut a = Aspect::new();
    a.add_key(2);
    let mut b = a.clone();
    assert!(b.contains(2));
    b.add_key(9);
    assert!(!a.contains(9));
    assert!(a.is_subset(&b));
    assert!(!b.is_subset(&a));
}

#[test]
fn subset_is_reflexive() {
    let mut a = Aspect::new();
    assert!(a.is_subset(&a));
    a.add_key(0);
    a.add_key(100);
    assert!(a.is_subset(&a));
}

#[test]
fn subset_flips_and_is_restored() {
    let mut a = Aspect::new();
    let mut b = Aspect::new();
    a.add_key(1);
    b.add_key(1);
    b.add_key(2);
    assert!(a.is_subset(&b));
    a.add_key(3);
    assert!(!a.is_subset(&b));
    a.del_key(3);
    assert!(a.is_subset(&b));
}

#[test]
fn subset_with_sets_of_different_sizes() {
    let mut small = Aspect::new();
    let mut large = Aspect::new();
    small.add_key(1);
    large.add_key(1);
    large.add_key(200);
    assert!(small.is_subset(&large));
    assert!(!large.is_subset(&small));
    large.del_key(200);
    assert!(large.is_subset(&small));
}
