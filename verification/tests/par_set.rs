use rayon_hash::{DefaultState, HashSet};
use std::sync::atomic::{AtomicUsize, Ordering};

#[test]
fn test_disjoint() {
    let mut xs = HashSet::new();
    let mut ys = HashSet::new();
    assert!(xs.par_is_disjoint(&ys));
    assert!(ys.par_is_disjoint(&xs));
    assert!(xs.insert(5));
    assert!(ys.insert(11));
    assert!(xs.par_is_disjoint(&ys));
    assert!(ys.par_is_disjoint(&xs));
    assert!(xs.insert(7));
    assert!(xs.insert(19));
    assert!(xs.insert(4));
    assert!(ys.insert(2));
    assert!(ys.insert(-11));
    assert!(xs.par_is_disjoint(&ys));
    assert!(ys.par_is_disjoint(&xs));
    assert!(ys.insert(7));
    assert!(!xs.par_is_disjoint(&ys));
    assert!(!ys.par_is_disjoint(&xs));
}

#[test]
fn test_subset_and_superset() {
    let mut a = HashSet::new();
    assert!(a.insert(0));
    assert!(a.insert(5));
    assert!(a.insert(11));
    assert!(a.insert(7));

    let mut b = HashSet::new();
    assert!(b.insert(0));
    assert!(b.insert(7));
    assert!(b.insert(19));
    assert!(b.insert(250));
    assert!(b.insert(11));
    assert!(b.insert(200));

    assert!(!a.par_is_subset(&b));
    assert!(!a.par_is_superset(&b));
    assert!(!b.par_is_subset(&a));
    assert!(!b.par_is_superset(&a));

    assert!(b.insert(5));

    assert!(a.par_is_subset(&b));
    assert!(!a.par_is_superset(&b));
    assert!(!b.par_is_subset(&a));
    assert!(b.par_is_superset(&a));
}

#[test]
fn set_test_iterate() {
    let mut a = HashSet::new();
    for i in 0..32 {
        assert!(a.insert(i));
    }
    let observed = AtomicUsize::new(0);
    for k in a.par_iter().drive_unindexed() {
        observed.fetch_or(1 << *k, Ordering::Relaxed);
    }
    assert_eq!(observed.into_inner(), 0xFFFF_FFFF);
}

#[test]
fn test_intersection() {
    let mut a = HashSet::new();
    let mut b = HashSet::new();

    assert!(a.insert(11));
    assert!(a.insert(1));
    assert!(a.insert(3));
    assert!(a.insert(77));
    assert!(a.insert(103));
    assert!(a.insert(5));
    assert!(a.insert(-5));

    assert!(b.insert(2));
    assert!(b.insert(11));
    assert!(b.insert(77));
    assert!(b.insert(-9));
    assert!(b.insert(-42));
    assert!(b.insert(5));
    assert!(b.insert(3));

    let expected = [3, 5, 11, 77];
    let i = a
        .par_intersection(&b)
        .drive_unindexed()
        .into_iter()
        .map(|x| {
            assert!(expected.contains(x));
            1
        })
        .sum::<usize>();
    assert_eq!(i, expected.len());
}

#[test]
fn test_difference() {
    let mut a = HashSet::new();
    let mut b = HashSet::new();

    assert!(a.insert(1));
    assert!(a.insert(3));
    assert!(a.insert(5));
    assert!(a.insert(9));
    assert!(a.insert(11));

    assert!(b.insert(3));
    assert!(b.insert(9));

    let expected = [1, 5, 11];
    let i = a
        .par_difference(&b)
        .drive_unindexed()
        .into_iter()
        .map(|x| {
            assert!(expected.contains(x));
            1
        })
        .sum::<usize>();
    assert_eq!(i, expected.len());
}

#[test]
fn test_symmetric_difference() {
    let mut a = HashSet::new();
    let mut b = HashSet::new();

    assert!(a.insert(1));
    assert!(a.insert(3));
    assert!(a.insert(5));
    assert!(a.insert(9));
    assert!(a.insert(11));

    assert!(b.insert(-2));
    assert!(b.insert(3));
    assert!(b.insert(9));
    assert!(b.insert(14));
    assert!(b.insert(22));

    let expected = [-2, 1, 5, 11, 14, 22];
    let i = a
        .par_symmetric_difference(&b)
        .drive_unindexed()
        .into_iter()
        .map(|x| {
            assert!(expected.contains(x));
            1
        })
        .sum::<usize>();
    assert_eq!(i, expected.len());
}

#[test]
fn test_union() {
    let mut a = HashSet::new();
    let mut b = HashSet::new();

    assert!(a.insert(1));
    assert!(a.insert(3));
    assert!(a.insert(5));
    assert!(a.insert(9));
    assert!(a.insert(11));
    assert!(a.insert(16));
    assert!(a.insert(19));
    assert!(a.insert(24));

    assert!(b.insert(-2));
    assert!(b.insert(1));
    assert!(b.insert(5));
    assert!(b.insert(9));
    assert!(b.insert(13));
    assert!(b.insert(19));

    let expected = [-2, 1, 3, 5, 9, 11, 13, 16, 19, 24];
    let i = a
        .par_union(&b)
        .drive_unindexed()
        .into_iter()
        .map(|x| {
            assert!(expected.contains(x));
            1
        })
        .sum::<usize>();
    assert_eq!(i, expected.len());
}

#[test]
fn set_test_from_iter() {
    let xs = [1, 2, 3, 4, 5, 6, 7, 8, 9];

    let set: HashSet<i32, DefaultState> = HashSet::from_par_iter(vec![xs.to_vec()]);

    for x in &xs {
        assert!(set.contains(x));
    }
}

#[test]
fn test_move_iter() {
    let hs = {
        let mut hs = HashSet::new();

        hs.insert('a');
        hs.insert('b');

        hs
    };

    let v = hs.into_par_iter().drive_unindexed();
    assert!(v == ['a', 'b'] || v == ['b', 'a']);
}

#[test]
fn set_test_eq() {
    // These constants once happened to expose a bug in insert().
    // I'm keeping them around to prevent a regression.
    let mut s1 = HashSet::new();

    s1.insert(1);
    s1.insert(2);
    s1.insert(3);

    let mut s2 = HashSet::new();

    s2.insert(1);
    s2.insert(2);

    assert!(!s1.par_eq(&s2));

    s2.insert(3);

    assert!(s1.par_eq(&s2));
}

#[test]
fn from_chunks_keeps_each_element_once() {
    let set: HashSet<u32, DefaultState> =
        HashSet::from_par_iter(vec![vec![1, 2, 3], vec![], vec![3, 4, 1]]);
    assert_eq!(set.len(), 4);
    let mut all: Vec<u32> = set.par_iter().drive_unindexed().into_iter().cloned().collect();
    all.sort();
    assert_eq!(all, vec![1, 2, 3, 4]);
}

#[test]
fn remove_takes_the_element_out() {
    let mut s: HashSet<i32, DefaultState> = HashSet::new();
    assert!(s.insert(3));
    assert!(!s.insert(3));
    assert!(s.remove(&3));
    assert!(!s.remove(&3));
    assert!(s.is_empty());
}
