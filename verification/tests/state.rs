use stable_tree::stable::util::BorrowState;

#[test]
fn state_word_transitions() {
    let s = BorrowState::new();
    assert_eq!(s.to_val(), 0);
    assert!(s.is_none());
    assert!(!s.is_drop());
    assert!(!s.is_borrow());
    assert!(!s.is_ref());
    assert!(!s.is_mut());

    // one shared borrow: count is stored four per step
    let s1 = s.incr_ref().unwrap();
    assert_eq!(s1.to_val(), 4);
    assert!(s1.is_ref());
    assert!(!s1.is_none());

    // a second shared borrow
    let s2 = s1.incr_ref().unwrap();
    assert_eq!(s2.to_val(), 8);

    // releasing one leaves one
    let (s3, freed) = s2.decr_ref();
    assert_eq!(s3.to_val(), 4);
    assert!(!freed);

    // the owner drops while the borrow is live: pending bit set
    let s4 = s3.make_drop();
    assert_eq!(s4.to_val(), 6);
    assert!(s4.is_drop());
    assert!(s4.is_ref());

    // the last release signals that the storage must be freed
    let (s5, freed) = s4.decr_ref();
    assert_eq!(s5.to_val(), 2);
    assert!(freed);
    assert!(!s5.is_none());
    assert!(s5.incr_ref().is_none());
    assert!(s5.incr_mut().is_none());
}

#[test]
fn state_exclusive_transitions() {
    let s = BorrowState::new();
    let m = s.incr_mut().unwrap();
    assert_eq!(m.to_val(), 1);
    assert!(m.is_borrow());
    assert!(m.is_mut());
    assert!(!m.is_ref());

    // exclusive excludes everything else
    assert!(m.incr_ref().is_none());
    assert!(m.incr_mut().is_none());

    let (back, freed) = m.decr_mut();
    assert!(back.is_none());
    assert!(!freed);

    // pending exclusive frees on release
    let md = m.make_drop();
    assert_eq!(md.to_val(), 3);
    let (left, freed) = md.decr_mut();
    assert_eq!(left.to_val(), 2);
    assert!(freed);
}

#[test]
fn state_mismatched_release_is_inert() {
    let s = BorrowState::new();
    assert_eq!(s.decr_ref().0.to_val(), 0);
    assert_eq!(s.decr_ref().1, false);
    assert_eq!(s.decr_mut().0.to_val(), 0);
    assert_eq!(s.decr_mut().1, false);
    let m = s.incr_mut().unwrap();
    // a shared release against an exclusive word changes nothing
    let (same, freed) = m.decr_ref();
    assert_eq!(same.to_val(), 1);
    assert!(!freed);
}

#[test]
fn state_count_overflow_is_refused() {
    // a word whose count field is saturated refuses another shared borrow
    let full = BorrowState::from_val(usize::MAX);
    assert!(full.incr_ref().is_none());
    let almost = BorrowState::from_val(usize::MAX - 3);
    assert!(almost.incr_ref().is_none());
}

#[test]
fn state_round_trip() {
    let s = BorrowState::from_val(12);
    assert_eq!(s.to_val(), 12);
    assert!(s.is_ref());
    assert!(!s.is_drop());
}
