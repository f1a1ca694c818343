use stable_tree::stable_cell::StableCell;

#[test]
fn stable_cell_test_borrow() {
    let mut cell = StableCell::new(5);
    let b0 = cell.try_borrow();
    assert!(b0.is_some());
    assert_eq!(*cell.value(), 5);
    assert!(cell.release_ref(b0.unwrap()).is_none());

    let b1 = cell.try_borrow().unwrap();
    let b2 = cell.try_borrow().unwrap();
    assert_eq!(*cell.value(), *cell.value());

    assert!(cell.try_borrow_mut().is_none());

    assert!(cell.release_ref(b1).is_none());
    assert!(cell.release_ref(b2).is_none());
}

#[test]
fn stable_cell_test_borrow_mut() {
    let mut cell = StableCell::new(5);

    let b0 = cell.try_borrow_mut();
    assert!(b0.is_some());
    assert_eq!(*cell.value(), 5);
    assert!(cell.release_mut(b0.unwrap()).is_none());

    let b1 = cell.try_borrow_mut().unwrap();

    assert!(cell.try_borrow_mut().is_none());

    assert!(cell.release_mut(b1).is_none());
}

#[test]
fn stable_cell_test_drop_borrow() {
    let mut cell = StableCell::new(-1);
    let b = cell.try_borrow().unwrap();
    let b2 = cell.try_borrow().unwrap();
    assert!(cell.drop_owner().is_none());
    assert_eq!(*cell.value(), -1);
    assert!(cell.release_ref(b).is_none());
    assert_eq!(cell.release_ref(b2), Some(-1));
}

#[test]
fn stable_cell_test_drop_borrow_mut() {
    let mut cell = StableCell::new(-1);
    let b = cell.try_borrow_mut().unwrap();
    assert!(cell.drop_owner().is_none());
    assert_eq!(*cell.value(), -1);
    assert_eq!(cell.release_mut(b), Some(-1));
}

#[test]
fn stable_cell_new_boxed() {
    let mut cell = StableCell::new_boxed(Box::new(vec![1, 2, 3]));
    let b = cell.try_borrow().unwrap();
    assert_eq!(cell.value().as_slice(), &[1, 2, 3]);
    assert!(cell.release_ref(b).is_none());
}

#[test]
fn stable_cell_dropped_owner_blocks_new_shared() {
    // in this flavor, a dropped owner refuses new shared borrows even
    // while old ones remain
    let mut cell = StableCell::new(4u16);
    let b = cell.try_borrow().unwrap();
    assert!(cell.drop_owner().is_none());
    assert!(cell.try_borrow().is_none());
    assert_eq!(cell.release_ref(b), Some(4));
}
