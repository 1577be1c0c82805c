use p_dispersion::PointVec;

#[test]
fn insert_present_index_keeps_count() {
    let mut v = PointVec::new(10, false);
    v.insert(3);
    assert_eq!(v.len(), 1);
    v.insert(3);
    assert_eq!(v.len(), 1);
    assert!(v.contains(3));
}

#[test]
fn remove_absent_index_keeps_count() {
    let mut v = PointVec::new(10, true);
    v.remove(4);
    assert_eq!(v.len(), 9);
    v.remove(4);
    assert_eq!(v.len(), 9);
    assert!(!v.contains(4));
}

#[test]
fn filled_set_is_masked_to_capacity() {
    let v = PointVec::new(70, true);
    assert_eq!(v.len(), 70);
    assert!(v.contains(69));
    assert!(!v.contains(70));
    assert!(!v.contains(127));
    assert_eq!(v.indices(), (0..70).collect::<Vec<usize>>());
}

#[test]
fn filled_set_of_whole_words() {
    let v = PointVec::new(128, true);
    assert_eq!(v.len(), 128);
    assert_eq!(v.next(), Some(0));
}

#[test]
fn empty_set_has_no_next() {
    let v = PointVec::new(5, false);
    assert_eq!(v.len(), 0);
    assert_eq!(v.next(), None);
    assert_eq!(v.indices(), Vec::<usize>::new());
}

#[test]
fn next_is_lowest_member_across_words() {
    let mut v = PointVec::new(200, false);
    v.insert(150);
    v.insert(70);
    v.insert(199);
    assert_eq!(v.next(), Some(70));
    assert_eq!(v.indices(), vec![70, 150, 199]);
}

#[test]
fn subtract_recounts_members() {
    let mut a = PointVec::new(130, true);
    let mut b = PointVec::new(130, false);
    for i in [0usize, 5, 64, 100, 129] {
        b.insert(i);
    }
    a.subtract(&b);
    assert_eq!(a.len(), 125);
    assert!(!a.contains(64));
    assert!(a.contains(65));
}

#[test]
fn subtract_and_copy_leaves_sources() {
    let full = PointVec::new(66, true);
    let mut rhs = PointVec::new(66, false);
    rhs.insert(1);
    rhs.insert(65);
    let mut out = PointVec::new(66, false);
    out.subtract_and_copy(&full, &rhs);
    assert_eq!(out.len(), 64);
    assert_eq!(full.len(), 66);
    assert_eq!(out.next(), Some(0));
    assert!(!out.contains(65));
}

#[test]
fn insert_and_copy_adds_one() {
    let mut src = PointVec::new(90, false);
    src.insert(2);
    let mut out = PointVec::new(90, true);
    out.insert_and_copy(&src, 80);
    assert_eq!(out.indices(), vec![2, 80]);
    assert_eq!(out.len(), 2);
    out.insert_and_copy(&src, 2);
    assert_eq!(out.len(), 1);
}

#[test]
fn copy_and_reset() {
    let mut a = PointVec::new(40, false);
    let mut b = PointVec::new(40, false);
    b.insert(7);
    b.insert(39);
    a.copy(&b);
    assert_eq!(a.indices(), vec![7, 39]);
    assert_eq!(a.len(), 2);
    a.reset(40, true);
    assert_eq!(a.len(), 40);
    a.reset(40, false);
    assert_eq!(a.len(), 0);
}
