use aspect_ecs::Bank;

#[test]
fn add_appends_when_nothing_was_reclaimed() {
    let mut bank: Bank<u32> = Bank::new();
    assert_eq!(bank.add(10), 0);
    assert_eq!(bank.add(11), 1);
    assert_eq!(bank.add(12), 2);
    assert_eq!(*bank.get(0), 10);
    assert_eq!(*bank.get(1), 11);
    assert_eq!(*bank.get(2), 12);
}

#[test]
fn add_del_add_reuses_the_slot() {
    let mut bank: Bank<u32> = Bank::new();
    let first = bank.add(1);
    let second = bank.add(2);
    bank.del(first);
    let third = bank.add(3);
    assert_eq!(third, first);
    assert_eq!(*bank.get(third), 3);
    assert_eq!(*bank.get(second), 2);
    assert_eq!(bank.add(4), 2);
}

#[test]
fn slots_reclaimed_last_are_reused_first() {
    let mut bank: Bank<char> = Bank::new();
    for c in ['a', 'b', 'c', 'd'] {
        bank.add(c);
    }
    bank.del(1);
    bank.del(3);
    assert_eq!(bank.add('x'), 3);
    assert_eq!(bank.add('y'), 1);
    assert_eq!(bank.add('z'), 4);
    assert_eq!(*bank.get(0), 'a');
    assert_eq!(*bank.get(1), 'y');
    assert_eq!(*bank.get(2), 'c');
    assert_eq!(*bank.get(3), 'x');
    assert_eq!(*bank.get(4), 'z');
}

#[test]
fn churn_does_not_grow_the_bank() {
    let mut bank: Bank<usize> = Bank::new();
    let slot = bank.add(0);
    for round in 1..100 {
        bank.del(slot);
        assert_eq!(bank.add(round), slot);
    }
    assert_eq!(bank.add(1000), 1);
}

#[test]
fn get_writes_through() {
    let mut bank: Bank<(u8, u8)> = Bank::new();
    let slot = bank.add((1, 2));
    *bank.get(slot) = (3, 4);
    assert_eq!(*bank.get(slot), (3, 4));
    bank.get(slot).0 = 9;
    assert_eq!(*bank.get(slot), (9, 4));
}
