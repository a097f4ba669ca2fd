use rayon_hash::{CollisionHash, DefaultState, HashMap, HashStrategy};
use std::sync::atomic::{AtomicUsize, Ordering};

struct Dropable<'a> {
    k: usize,
    counter: &'a AtomicUsize,
}

impl<'a> Dropable<'a> {
    fn new(k: usize, counter: &AtomicUsize) -> Dropable {
        counter.fetch_add(1, Ordering::Relaxed);

        Dropable { k: k, counter: counter }
    }
}

impl<'a> Drop for Dropable<'a> {
    fn drop(&mut self) {
        self.counter.fetch_sub(1, Ordering::Relaxed);
    }
}

impl<'a> Clone for Dropable<'a> {
    fn clone(&self) -> Dropable<'a> {
        Dropable::new(self.k, self.counter)
    }
}

#[test]
fn test_into_iter_drops() {
    let key = AtomicUsize::new(0);
    let value = AtomicUsize::new(0);

    let hm = {
        let mut hm = HashMap::new();

        assert_eq!(key.load(Ordering::Relaxed), 0);
        assert_eq!(value.load(Ordering::Relaxed), 0);

        for i in 0..100 {
            let d1 = Dropable::new(i, &key);
            let d2 = Dropable::new(i + 100, &value);
            hm.insert(i, (d1, d2));
        }

        assert_eq!(key.load(Ordering::Relaxed), 100);
        assert_eq!(value.load(Ordering::Relaxed), 100);

        hm
    };

    // By the way, ensure that cloning doesn't screw up the dropping.
    drop(hm.clone());

    {
        assert_eq!(key.load(Ordering::Relaxed), 100);
        assert_eq!(value.load(Ordering::Relaxed), 100);

        // retain only half
        let _v: Vec<_> = hm
            .into_par_iter()
            .drive_unindexed()
            .into_iter()
            .filter(|&(_, (ref key, _))| key.k < 50)
            .collect();

        assert_eq!(key.load(Ordering::Relaxed), 50);
        assert_eq!(value.load(Ordering::Relaxed), 50);
    };

    assert_eq!(key.load(Ordering::Relaxed), 0);
    assert_eq!(value.load(Ordering::Relaxed), 0);
}

#[test]
fn test_empty_iter() {
    let mut m: HashMap<isize, bool, DefaultState> = HashMap::new();
    assert_eq!(m.par_keys().drive_unindexed().len(), 0);
    assert_eq!(m.par_values().drive_unindexed().len(), 0);
    m.par_values_mut().for_each(|v| v);
    assert_eq!(m.par_iter().drive_unindexed().len(), 0);
    m.par_iter_mut().for_each(|_, v| v);
    assert_eq!(m.len(), 0);
    assert!(m.is_empty());
    assert_eq!(m.into_par_iter().drive_unindexed().len(), 0);
}

#[test]
fn map_test_iterate() {
    let mut m = HashMap::with_capacity(4);
    for i in 0..32 {
        assert!(m.insert(i, i * 2).is_none());
    }
    assert_eq!(m.len(), 32);

    let observed = AtomicUsize::new(0);

    for (k, v) in m.par_iter().drive_unindexed() {
        assert_eq!(*v, *k * 2);
        observed.fetch_or(1 << *k, Ordering::Relaxed);
    }
    assert_eq!(observed.into_inner(), 0xFFFF_FFFF);
}

#[test]
fn test_keys() {
    let vec = vec![(1, 'a'), (2, 'b'), (3, 'c')];
    let map: HashMap<i32, char, DefaultState> = HashMap::from_par_iter(vec);
    let keys: Vec<_> = map.par_keys().drive_unindexed().into_iter().cloned().collect();
    assert_eq!(keys.len(), 3);
    assert!(keys.contains(&1));
    assert!(keys.contains(&2));
    assert!(keys.contains(&3));
}

#[test]
fn test_values() {
    let vec = vec![(1, 'a'), (2, 'b'), (3, 'c')];
    let map: HashMap<i32, char, DefaultState> = HashMap::from_par_iter(vec);
    let values: Vec<_> = map.par_values().drive_unindexed().into_iter().cloned().collect();
    assert_eq!(values.len(), 3);
    assert!(values.contains(&'a'));
    assert!(values.contains(&'b'));
    assert!(values.contains(&'c'));
}

#[test]
fn test_values_mut() {
    let vec = vec![(1, 1), (2, 2), (3, 3)];
    let mut map: HashMap<i32, i32, DefaultState> = HashMap::from_par_iter(vec);
    map.par_values_mut().for_each(|value| value * 2);
    let values: Vec<_> = map.par_values().drive_unindexed().into_iter().cloned().collect();
    assert_eq!(values.len(), 3);
    assert!(values.contains(&2));
    assert!(values.contains(&4));
    assert!(values.contains(&6));
}

#[test]
fn map_test_eq() {
    let mut m1 = HashMap::new();
    m1.insert(1, 2);
    m1.insert(2, 3);
    m1.insert(3, 4);

    let mut m2 = HashMap::new();
    m2.insert(1, 2);
    m2.insert(2, 3);

    assert!(!m1.par_eq(&m2));

    m2.insert(3, 4);

    assert!(m1.par_eq(&m2));
}

#[test]
fn map_test_from_iter() {
    let xs = [(1, 1), (2, 2), (3, 3), (4, 4), (5, 5), (6, 6)];

    let map: HashMap<i32, i32, DefaultState> = HashMap::from_par_iter(xs.to_vec());

    for &(k, v) in &xs {
        assert_eq!(map.get(&k), Some(&v));
    }
}

#[test]
fn test_extend_ref() {
    let mut a = HashMap::new();
    a.insert(1, "one");
    let mut b = HashMap::new();
    b.insert(2, "two");
    b.insert(3, "three");

    let pairs: Vec<(i32, &str)> =
        b.par_iter().drive_unindexed().into_iter().map(|(k, v)| (*k, *v)).collect();
    a.par_extend(vec![pairs]);

    assert_eq!(a.len(), 3);
    assert_eq!(a.get(&1), Some(&"one"));
    assert_eq!(a.get(&2), Some(&"two"));
    assert_eq!(a.get(&3), Some(&"three"));
}

fn verify_state<S: HashStrategy + Sync>(num: usize) {
    for _ in 0..10 {
        // Insert a second version of each key twice, so we know later
        // values always overwrite earlier ones.
        let mut m: HashMap<usize, usize, S> =
            HashMap::from_par_iter((0..2 * num).map(|x| (x % num, x)).collect());

        assert_eq!(num, m.len());

        for i in 0..num {
            let r = m.get(&i);
            assert_eq!(r, Some(&(i + num)));
        }

        for i in num..2 * num {
            assert!(!m.contains_key(&i));
        }

        // remove
        for i in 0..num {
            assert!(m.remove(&i).is_some());

            for j in 0..i + 1 {
                assert!(!m.contains_key(&j));
            }

            for j in i + 1..num {
                assert!(m.contains_key(&j));
            }
        }
    }
}

#[test]
fn test_collect_bad_hash() {
    verify_state::<CollisionHash>(100);
}

#[test]
fn test_collect_state() {
    verify_state::<DefaultState>(1000);
}

#[test]
fn bulk_build_example_scenario() {
    let pairs: Vec<(usize, usize)> = (0..2000).map(|i| (i % 1000, i)).collect();
    let map: HashMap<usize, usize, DefaultState> = HashMap::from_par_iter(pairs);
    assert_eq!(map.len(), 1000);
    for k in 0..1000 {
        assert_eq!(map.get(&k), Some(&(k + 1000)));
    }
    assert!(!map.contains_key(&1000));
}

#[test]
fn sequential_insert_get_remove() {
    let mut m: HashMap<i64, i64, DefaultState> = HashMap::new();
    assert_eq!(m.insert(-5, 1), None);
    assert_eq!(m.insert(-5, 2), Some(1));
    assert_eq!(m.insert(7, 3), None);
    assert_eq!(m.len(), 2);
    assert_eq!(m.get(&-5), Some(&2));
    assert_eq!(m.remove(&-5), Some(2));
    assert_eq!(m.remove(&-5), None);
    assert_eq!(m.get(&7), Some(&3));
    assert_eq!(m.len(), 1);
}

#[test]
fn table_grows_beyond_its_first_capacity() {
    let mut m: HashMap<u64, u64, DefaultState> = HashMap::new();
    let first = m.capacity();
    assert_eq!(first, 32);
    for i in 0..500u64 {
        m.insert(i, i + 1);
    }
    assert!(m.capacity() > first);
    assert!(m.capacity().is_power_of_two());
    assert_eq!(m.len(), 500);
    for i in 0..500u64 {
        assert_eq!(m.get(&i), Some(&(i + 1)));
    }
}

#[test]
fn pair_traversal_rewrites_values_by_key() {
    let mut m: HashMap<u32, u32, DefaultState> =
        HashMap::from_par_iter((0..100u32).map(|i| (i, 1)).collect());
    m.par_iter_mut().for_each(|k, v| k + v);
    for i in 0..100u32 {
        assert_eq!(m.get(&i), Some(&(i + 1)));
    }
    assert_eq!(m.len(), 100);
}

#[test]
fn par_eq_tells_values_apart() {
    let a: HashMap<u32, u32, DefaultState> =
        HashMap::from_par_iter((0..50u32).map(|i| (i, i)).collect());
    let mut b = a.clone();
    assert!(a.par_eq(&b));
    b.insert(7, 8);
    assert!(!a.par_eq(&b));
    assert!(!b.par_eq(&a));
}

#[test]
fn parallel_traversal_yields_what_the_sequential_walk_yields() {
    let map: HashMap<u32, u32, DefaultState> =
        HashMap::from_par_iter((0..777u32).map(|i| (i * 7, i)).collect());
    assert_eq!(map.par_iter().drive_unindexed(), map.iter());
    assert_eq!(map.par_keys().drive_unindexed(), map.keys());
    assert_eq!(map.par_values().drive_unindexed(), map.values());
    let mut keys: Vec<u32> = map.keys().into_iter().cloned().collect();
    keys.sort();
    assert_eq!(keys, (0..777u32).map(|i| i * 7).collect::<Vec<_>>());
}

#[test]
fn removal_keeps_colliding_keys_within_reach() {
    let mut m: HashMap<usize, usize, CollisionHash> = HashMap::default();
    for i in 0..20 {
        m.insert(i, i);
    }
    assert_eq!(m.remove(&0), Some(0));
    assert_eq!(m.remove(&7), Some(7));
    for i in 0..20 {
        assert_eq!(m.get(&i), if i == 0 || i == 7 { None } else { Some(&i) });
    }
    // The entries that followed have moved up: the run has no gap.
    let occupied: Vec<bool> = m.table().buckets().iter().map(|b| b.is_some()).collect();
    assert!(occupied[..18].iter().all(|o| *o));
    assert!(occupied[18..].iter().all(|o| !*o));
}

#[test]
fn map_hashes_with_its_own_strategy() {
    let colliding: HashMap<u32, u32, CollisionHash> = HashMap::default();
    assert_eq!(colliding.hasher().hash(1), 7);
    assert_eq!(colliding.hasher().hash(2), 7);
    let plain: HashMap<u32, u32, DefaultState> = HashMap::new();
    assert_eq!(plain.hasher().hash(0), 0);
    assert_eq!(plain.hasher().hash(1), 0x9E37_79B9_7F4A_7C15);
    assert_eq!(plain.hasher().hash(1 << 32), ((1u64 << 32) | 1).wrapping_mul(0x9E37_79B9_7F4A_7C15));
}

#[test]
fn with_capacity_makes_the_shortest_table_with_a_tenth_to_spare() {
    let small: HashMap<u64, u64, DefaultState> = HashMap::with_capacity(4);
    assert_eq!(small.capacity(), 32);
    assert!(small.is_empty());
    let exact: HashMap<u64, u64, DefaultState> = HashMap::with_capacity(116);
    assert_eq!(exact.capacity(), 128);
    let over: HashMap<u64, u64, DefaultState> = HashMap::with_capacity(117);
    assert_eq!(over.capacity(), 256);
    let mut m: HashMap<u64, u64, DefaultState> = HashMap::with_capacity(100);
    assert_eq!(m.capacity(), 128);
    for i in 0..100 {
        m.insert(i, i);
    }
    assert_eq!(m.capacity(), 128);
    assert_eq!(m.len(), 100);
}
