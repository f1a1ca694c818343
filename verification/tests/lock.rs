use stable_tree::stable::lock::StableLock;

#[test]
fn lock_test_borrow() {
    let mut cell = StableLock::new(5);
    let b0 = cell.try_borrow();
    assert!(b0.is_some());
    assert_eq!(*cell.value(), 5);
    assert!(cell.release_ref(b0.unwrap()).is_none());

    let b1 = cell.try_borrow().unwrap();
    let b2 = cell.try_borrow().unwrap();
    assert_eq!(*cell.value(), *cell.value());

    assert!(cell.try_borrow_mut().is_none());

    assert!(cell.release_ref(b1).is_none());
    assert!(cell.release_ref(b2).is_none());
}

#[test]
fn lock_test_borrow_mut() {
    let mut cell = StableLock::new(5);

    let b0 = cell.try_borrow_mut();
    assert!(b0.is_some());
    assert_eq!(*cell.value(), 5);
    assert!(cell.release_mut(b0.unwrap()).is_none());

    let b1 = cell.try_borrow_mut().unwrap();

    assert!(cell.try_borrow_mut().is_none());

    assert!(cell.release_mut(b1).is_none());
}

#[test]
fn lock_test_drop_borrow() {
    let mut cell = StableLock::new(-1);
    let b = cell.try_borrow().unwrap();
    let b2 = cell.try_borrow().unwrap();
    assert!(cell.drop_owner().is_none());
    assert_eq!(*cell.value(), -1);
    assert!(cell.release_ref(b).is_none());
    assert_eq!(cell.release_ref(b2), Some(-1));
}

#[test]
fn lock_test_drop_borrow_mut() {
    let mut cell = StableLock::new(-1);
    let b = cell.try_borrow_mut().unwrap();
    assert!(cell.drop_owner().is_none());
    assert_eq!(*cell.value(), -1);
    assert_eq!(cell.release_mut(b), Some(-1));
}

#[test]
fn lock_mutation_through_exclusive() {
    let mut cell = StableLock::new(String::new());
    let m = cell.try_borrow_mut().unwrap();
    cell.set_value(String::from("written"));
    assert!(cell.release_mut(m).is_none());
    assert_eq!(cell.value(), "written");
}

#[test]
fn lock_test_unsized() {
    let mut cell = StableLock::new_from(vec![1, 2, 3]);
    let b = cell.try_borrow().unwrap();
    assert_eq!(cell.value().as_slice(), &[1, 2, 3]);
    assert!(cell.release_ref(b).is_none());
}
