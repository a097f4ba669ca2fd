use rayon_hash::par::table::SplitBuckets;
use rayon_hash::table::{Entry, RawTable};

fn sparse_table(capacity: usize, step: usize) -> RawTable<usize, usize> {
    let mut buckets = Vec::new();
    for i in 0..capacity {
        if i % step == 0 {
            buckets.push(Some(Entry { hash: i as u64, key: i, value: i * 10 }));
        } else {
            buckets.push(None);
        }
    }
    let size = buckets.iter().filter(|b| b.is_some()).count();
    RawTable::from_buckets(buckets, size)
}

#[test]
fn split_cuts_at_the_midpoint() {
    let table = sparse_table(9, 2);
    let whole = SplitBuckets::new(table.buckets());
    let (left, right) = whole.split();
    let mut left = left;
    let mut right = right.expect("nine buckets split");
    let mut seen = Vec::new();
    while let Some(b) = left.next(table.buckets()) {
        seen.push(b.index());
    }
    assert_eq!(seen, vec![0, 2]);
    while let Some(b) = right.next(table.buckets()) {
        seen.push(b.index());
    }
    assert_eq!(seen, vec![0, 2, 4, 6, 8]);
}

#[test]
fn parallel_pairs_match_sequential_walk() {
    let table = sparse_table(64, 3);
    let got: Vec<(usize, usize)> = table.par_iter().drive_unindexed().into_iter().map(|(k, v)| (*k, *v)).collect();
    let want: Vec<(usize, usize)> = (0..64).filter(|i| i % 3 == 0).map(|i| (i, i * 10)).collect();
    assert_eq!(got, want);
}

#[test]
fn limited_drain_empties_every_bucket() {
    let table = sparse_table(64, 3);
    let (items, dropped, left) = table.into_par_iter().drive_limited(1);
    assert_eq!(items.len() + dropped, 22);
    assert!(items.len() >= 1);
    assert_eq!(left.size(), 0);
    assert_eq!(left.capacity(), 64);
    assert!(left.buckets().iter().all(|b| b.is_none()));
}

#[test]
fn repeated_splits_visit_each_index_once() {
    for capacity in [0usize, 1, 2, 3, 7, 8, 33, 100] {
        let table = sparse_table(capacity, 1);
        let mut work = vec![SplitBuckets::new(table.buckets())];
        // Cut every range again and again until none can be cut.
        loop {
            let mut next = Vec::new();
            let mut cut = false;
            for range in work.iter() {
                let (left, right) = range.split();
                next.push(left);
                if let Some(right) = right {
                    next.push(right);
                    cut = true;
                }
            }
            work = next;
            if !cut {
                break;
            }
        }
        let mut seen = Vec::new();
        for range in work.iter_mut() {
            while let Some(b) = range.next(table.buckets()) {
                seen.push(b.index());
            }
        }
        assert_eq!(seen, (0..capacity).collect::<Vec<_>>());
    }
}

#[test]
fn full_drain_hands_over_every_pair() {
    let table = sparse_table(50, 7);
    let items = table.into_par_iter().drive_unindexed();
    assert_eq!(items, vec![(0, 0), (7, 70), (14, 140), (21, 210), (28, 280), (35, 350), (42, 420), (49, 490)]);
}

#[test]
fn drain_without_takers_drops_every_pair() {
    let table = sparse_table(40, 2);
    let (items, dropped, left) = table.into_par_iter().drive_limited(0);
    assert!(items.is_empty());
    assert_eq!(dropped, 20);
    assert_eq!(left.size(), 0);
    assert!(left.buckets().iter().all(|b| b.is_none()));
}

#[test]
fn keys_and_values_follow_the_buckets() {
    let table = sparse_table(10, 4);
    let keys: Vec<usize> = table.par_keys().drive_unindexed().into_iter().cloned().collect();
    let values: Vec<usize> = table.par_values().drive_unindexed().into_iter().cloned().collect();
    assert_eq!(keys, vec![0, 4, 8]);
    assert_eq!(values, vec![0, 40, 80]);
}

#[test]
fn rewriting_keeps_keys_and_empty_buckets() {
    let mut table = sparse_table(12, 5);
    table.par_values_mut().for_each(|v| v + 1);
    table.par_iter_mut().for_each(|k, v| v + k);
    let got: Vec<Option<(usize, usize)>> =
        table.buckets().iter().map(|b| b.as_ref().map(|e| (e.key, e.value))).collect();
    let mut want = vec![None; 12];
    want[0] = Some((0, 1));
    want[5] = Some((5, 56));
    want[10] = Some((10, 111));
    assert_eq!(got, want);
    assert_eq!(table.size(), 3);
}

#[test]
fn cursor_reads_and_empties_its_bucket() {
    let table = sparse_table(6, 2);
    let mut cursor = table.raw_bucket_at(0);
    assert_eq!(cursor.index(), 0);
    assert!(!cursor.is_empty(table.buckets()));
    assert_eq!(cursor.pair(table.buckets()), (&0, &0));
    cursor.index_add(1);
    assert!(cursor.is_empty(table.buckets()));
    cursor.index_add(3);
    assert_eq!(cursor.index(), 4);
    let mut buckets = table.into_buckets();
    let taken = cursor.take(&mut buckets);
    assert_eq!(taken.map(|e| (e.key, e.value)), Some((4, 40)));
    assert!(cursor.is_empty(&buckets));
    let first = rayon_hash::table::RawBucket::at(0);
    first.set_empty(&mut buckets);
    assert!(first.is_empty(&buckets));
    assert_eq!(buckets.iter().filter(|b| b.is_some()).count(), 1);
}
