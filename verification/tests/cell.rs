use stable_tree::stable::cell::StableCell;

#[test]
fn cell_test_borrow() {
    let mut cell = StableCell::new(5);
    let b0 = cell.try_borrow();
    assert!(b0.is_some());
    assert_eq!(*cell.value(), 5);
    assert!(cell.release_ref(b0.unwrap()).is_none());

    let b1 = cell.try_borrow().unwrap();
    let b2 = cell.try_borrow().unwrap();
    assert_eq!(*cell.value(), *cell.value());

    assert!(cell.try_borrow_mut().is_none());

    assert!(cell.release_ref(b1).is_none());
    assert!(cell.release_ref(b2).is_none());
}

#[test]
fn cell_test_borrow_mut() {
    let mut cell = StableCell::new(5);

    let b0 = cell.try_borrow_mut();
    assert!(b0.is_some());
    assert_eq!(*cell.value(), 5);
    assert!(cell.release_mut(b0.unwrap()).is_none());

    let b1 = cell.try_borrow_mut().unwrap();

    assert!(cell.try_borrow_mut().is_none());

    assert!(cell.release_mut(b1).is_none());
}

#[test]
fn cell_test_drop_borrow() {
    let mut cell = StableCell::new(-1);
    let b = cell.try_borrow().unwrap();
    let b2 = cell.try_borrow().unwrap();
    // dropping the owner while shared borrows are live must not free
    assert!(cell.drop_owner().is_none());
    assert_eq!(*cell.value(), -1);
    // the storage is freed exactly once, by the last release
    assert!(cell.release_ref(b).is_none());
    assert_eq!(cell.release_ref(b2), Some(-1));
}

#[test]
fn cell_test_drop_borrow_mut() {
    let mut cell = StableCell::new(-1);
    let b = cell.try_borrow_mut().unwrap();
    assert!(cell.drop_owner().is_none());
    assert_eq!(*cell.value(), -1);
    assert_eq!(cell.release_mut(b), Some(-1));
}

#[test]
fn cell_fresh_borrow_reads_value() {
    let mut cell = StableCell::new(String::from("hello"));
    let b = cell.try_borrow();
    assert!(b.is_some());
    assert_eq!(cell.value(), "hello");
    assert!(cell.release_ref(b.unwrap()).is_none());
}

#[test]
fn cell_shared_blocks_exclusive() {
    let mut cell = StableCell::new(7u32);
    let b1 = cell.try_borrow().unwrap();
    let b2 = cell.try_borrow();
    assert!(b2.is_some());
    assert_eq!(*cell.value(), 7);
    assert!(cell.try_borrow_mut().is_none());
    assert!(cell.release_ref(b1).is_none());
    assert!(cell.release_ref(b2.unwrap()).is_none());
}

#[test]
fn cell_exclusive_blocks_all() {
    let mut cell = StableCell::new(7u32);
    let m = cell.try_borrow_mut().unwrap();
    assert!(cell.try_borrow().is_none());
    assert!(cell.try_borrow_mut().is_none());
    assert!(cell.release_mut(m).is_none());
    // once the exclusive handle is gone, borrowing works again
    let b = cell.try_borrow();
    assert!(b.is_some());
    assert!(cell.release_ref(b.unwrap()).is_none());
}

#[test]
fn cell_mutation_through_exclusive() {
    let mut cell = StableCell::new(1i64);
    let m = cell.try_borrow_mut().unwrap();
    cell.set_value(42);
    assert!(cell.release_mut(m).is_none());
    assert_eq!(*cell.value(), 42);
}

#[test]
fn cell_drop_owner_idle_frees_immediately() {
    let mut cell = StableCell::new(9u8);
    assert_eq!(cell.drop_owner(), Some(9));
    // a freed cell grants nothing any more
    assert!(cell.try_borrow().is_none());
    assert!(cell.try_borrow_mut().is_none());
}

#[test]
fn cell_test_unsized() {
    let mut cell = StableCell::new_from(vec![1, 2, 3]);
    let b = cell.try_borrow().unwrap();
    assert_eq!(cell.value().as_slice(), &[1, 2, 3]);
    assert!(cell.release_ref(b).is_none());
}

#[test]
fn cell_try_clone() {
    let mut cell = StableCell::new(11i32);
    let copy = cell.try_clone();
    assert!(copy.is_some());
    let mut copy = copy.unwrap();
    assert_eq!(*copy.value(), 11);
    // the copy is independent storage
    let m = copy.try_borrow_mut().unwrap();
    copy.set_value(12);
    assert!(copy.release_mut(m).is_none());
    assert_eq!(*cell.value(), 11);
    assert_eq!(*copy.value(), 12);

    // cloning fails loudly while the value is exclusively borrowed
    let m = cell.try_borrow_mut().unwrap();
    assert!(cell.try_clone().is_none());
    assert!(cell.release_mut(m).is_none());
}
