use arena_bst::Arena;

#[test]
fn fresh_slots_are_appended() {
    let mut arena = Arena::<u32>::new();
    assert_eq!(arena.allocate(10), 0);
    assert_eq!(arena.allocate(11), 1);
    assert_eq!(arena.allocate(12), 2);
    assert_eq!(*arena.view(0), 10);
    assert_eq!(*arena.view(1), 11);
    assert_eq!(*arena.view(2), 12);
}

#[test]
fn freed_slots_are_reused_last_freed_first() {
    let mut arena = Arena::<u32>::new();
    for v in 0..4 {
        arena.allocate(v);
    }
    assert!(arena.remove(1));
    assert!(arena.remove(3));
    assert_eq!(arena.allocate(40), 3);
    assert_eq!(arena.allocate(41), 1);
    assert_eq!(arena.allocate(42), 4);
    assert_eq!(*arena.view(0), 0);
    assert_eq!(*arena.view(1), 41);
    assert_eq!(*arena.view(2), 2);
    assert_eq!(*arena.view(3), 40);
    assert_eq!(*arena.view(4), 42);
}

#[test]
fn freeing_an_empty_slot_does_nothing() {
    let mut arena = Arena::<u32>::new();
    arena.allocate(1);
    arena.allocate(2);
    assert!(arena.remove(0));
    assert!(!arena.remove(0));
    assert_eq!(arena.allocate(3), 0);
    assert_eq!(arena.allocate(4), 2);
}

#[test]
fn modify_changes_only_its_slot() {
    let mut arena = Arena::<u32>::new();
    arena.allocate(1);
    arena.allocate(2);
    *arena.modify(1) = 20;
    assert_eq!(*arena.view(0), 1);
    assert_eq!(*arena.view(1), 20);
}
