use stable_tree::list::array_vec::ArrayVec;

#[test]
fn test_push() {
    let mut v = ArrayVec::<_, 5>::new();
    assert_eq!(v.len(), 0);
    assert!(v.is_empty());
    assert_eq!(v.get(0), None);
    v.push(0);
    assert_eq!(v.len(), 1);
    assert_eq!(v.capacity(), 5);
    assert_eq!(v.get(0), Some(&0));
}

#[test]
fn test_pop() {
    let mut v = ArrayVec::<_, 5>::new();
    v.push(0);
    v.push(1);
    v.push(2);
    v.push(3);
    v.push(4);
    assert_eq!(v.len(), 5);
    assert_eq!(v.get(0), Some(&0));
    assert_eq!(v.get(4), Some(&4));

    assert_eq!(v.pop(), Some(4));
    assert_eq!(v.len(), 4);
    assert_eq!(v.pop(), Some(3));
    assert_eq!(v.len(), 3);
    assert_eq!(v.pop(), Some(2));
    assert_eq!(v.len(), 2);
    assert_eq!(v.pop(), Some(1));
    assert_eq!(v.len(), 1);
    assert_eq!(v.pop(), Some(0));
    assert_eq!(v.len(), 0);
    assert_eq!(v.pop(), None);
}

#[test]
fn array_vec_set_in_range() {
    let mut v = ArrayVec::<i32, 3>::new();
    v.push(10);
    v.push(20);
    assert!(v.set(1, 25));
    assert_eq!(v.get(1), Some(&25));
    assert_eq!(v.get(0), Some(&10));
    assert!(!v.set(2, 99));
    assert_eq!(v.len(), 2);
}
