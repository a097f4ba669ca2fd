use rand::rngs::StdRng;
use rand::{Rng, SeedableRng};
use rayon_hash::bulk::{bits_for, build, from_segments, insert_round, into_segments, shard_bits_for, shard_items};
use rayon_hash::segment::{capacity, home_index, Displaced, ShardSegment};
use rayon_hash::table::{Entry, RawTable};
use rayon_hash::{CollisionHash, DefaultState, HashMap, HashStrategy};

#[test]
fn shards_are_the_next_power_of_two() {
    assert_eq!(shard_bits_for(0), 0);
    assert_eq!(shard_bits_for(1), 0);
    assert_eq!(shard_bits_for(2), 1);
    assert_eq!(shard_bits_for(3), 2);
    assert_eq!(shard_bits_for(4), 2);
    assert_eq!(shard_bits_for(5), 3);
    assert_eq!(shard_bits_for(8), 3);
    assert_eq!(shard_bits_for(9), 4);
    assert_eq!(shard_bits_for(65536), 16);
    assert_eq!(shard_bits_for(1_000_000), 16);
}

#[test]
fn table_length_leaves_a_tenth_to_spare() {
    assert_eq!(bits_for(0, 0), 5);
    assert_eq!(bits_for(29, 0), 5);
    assert_eq!(bits_for(30, 0), 6);
    assert_eq!(bits_for(100, 0), 7);
    assert_eq!(bits_for(116, 0), 7);
    assert_eq!(bits_for(117, 0), 8);
    assert_eq!(bits_for(0, 8), 8);
    assert_eq!(capacity(7), 128);
}

#[test]
fn home_is_made_of_the_top_bits_below_the_sign() {
    assert_eq!(home_index(0, 5), 0);
    assert_eq!(home_index(7, 5), 0);
    assert_eq!(home_index(0x4000_0000_0000_0000, 1), 1);
    assert_eq!(home_index(0x4000_0000_0000_0000, 5), 16);
    assert_eq!(home_index(u64::MAX, 5), 31);
    assert_eq!(home_index(0x8000_0000_0000_0000, 5), 0);
    assert_eq!(home_index(0x0800_0000_0000_0000, 4), 1);
}

#[test]
fn pairs_are_sorted_by_shard_in_their_order() {
    let strategy = DefaultState::fresh();
    let items: Vec<(u64, u64)> = (0..1000u64).map(|i| (i % 300, i)).collect();
    let shards = shard_items(items.clone(), &strategy, 3, 4);
    assert_eq!(shards.len(), 8);
    let mut seen = 0;
    for (m, list) in shards.iter().enumerate() {
        let flat: Vec<&Displaced<u64, u64>> = list.iter().flat_map(|chunk| chunk.iter()).collect();
        let want: Vec<(u64, u64)> = items
            .iter()
            .filter(|(k, _)| home_index(strategy.hash(*k), 3) == m)
            .cloned()
            .collect();
        assert_eq!(flat.len(), want.len());
        for (got, want) in flat.iter().zip(want.iter()) {
            assert_eq!((got.key, got.value), *want);
            assert_eq!(got.hash, strategy.hash(got.key));
            assert_eq!(got.displacement, 0);
        }
        seen += flat.len();
    }
    assert_eq!(seen, 1000);
}

#[test]
fn segment_puts_down_as_overflow_what_finds_no_room() {
    let slots: Vec<Option<Entry<u64, u64>>> = vec![None, None, None, None];
    // The second segment of four of an array of sixteen buckets.
    let mut segment = ShardSegment::new(4, 4, slots);
    // The top four bits below the sign bit are 6: home is bucket 6.
    let hash: u64 = 6 << 59;
    segment.insert(hash, 1, 10, 0);
    segment.insert(hash, 2, 20, 0);
    segment.insert(hash, 3, 30, 0);
    segment.insert(hash, 1, 11, 0);
    let (inserted, overflow) = segment.take();
    assert_eq!(inserted, 2);
    assert_eq!(overflow.len(), 1);
    assert_eq!((overflow[0].key, overflow[0].value, overflow[0].displacement), (3, 30, 2));
    let slots = segment.into_slots();
    assert!(slots[0].is_none() && slots[1].is_none());
    assert_eq!(slots[2].as_ref().map(|e| (e.key, e.value)), Some((1, 11)));
    assert_eq!(slots[3].as_ref().map(|e| (e.key, e.value)), Some((2, 20)));
}

#[test]
fn segments_cover_the_table_once() {
    let mut buckets: Vec<Option<Entry<u64, u64>>> = Vec::new();
    for i in 0..32u64 {
        buckets.push(if i % 3 == 0 { Some(Entry { hash: i << 58, key: i, value: i }) } else { None });
    }
    let table = RawTable::from_buckets(buckets, 11);
    let segments = into_segments(table, 5, 2);
    assert_eq!(segments.len(), 4);
    let (segments, taken) = insert_round(segments, vec![vec![], vec![], vec![], vec![]]);
    assert!(taken.iter().all(|(n, overflow)| *n == 0 && overflow.is_empty()));
    let back = from_segments(segments, 5, 2);
    assert_eq!(back.len(), 32);
    for (i, bucket) in back.iter().enumerate() {
        assert_eq!(bucket.as_ref().map(|e| e.key), if i % 3 == 0 { Some(i as u64) } else { None });
    }
}

#[test]
fn colliding_keys_are_built_within_as_many_rounds_as_shards() {
    for shard_bits in 0..5u32 {
        let items: Vec<(usize, usize)> = (0..200).map(|i| (i % 100, i)).collect();
        let built = build(items, &CollisionHash::fresh(), shard_bits, 0);
        assert!(built.rounds <= 1 << shard_bits);
        assert_eq!(built.table.size(), 100);
        assert_eq!(built.table.capacity(), 1 << built.bits);
        let occupied = built.table.buckets().iter().filter(|b| b.is_some()).count();
        assert_eq!(occupied, 100);
        for bucket in built.table.buckets().iter().flatten() {
            assert_eq!(bucket.value, bucket.key + 100);
            assert_eq!(bucket.hash, 7);
        }
        // All keys want bucket 0, so they lie one after the other from there.
        assert!(built.table.buckets()[..100].iter().all(|b| b.is_some()));
    }
}

#[test]
fn overflow_runs_through_several_segments() {
    let items: Vec<(usize, usize)> = (0..100).map(|i| (i, i)).collect();
    let built = build(items, &CollisionHash::fresh(), 4, 0);
    // 128 buckets in 16 segments of 8: a hundred colliding keys fill twelve and a half.
    assert_eq!(built.bits, 7);
    assert_eq!(built.rounds, 12);
}

#[test]
fn random_pairs_build_what_sequential_insertion_builds() {
    let mut rng = StdRng::seed_from_u64(0x5eed);
    for round in 0..20 {
        let n = rng.gen_range(0..3000);
        let pairs: Vec<(u64, u64)> =
            (0..n).map(|_| (rng.gen_range(0..500 + 50 * round), rng.gen())).collect();
        let mut expected = std::collections::HashMap::new();
        for (k, v) in pairs.iter() {
            expected.insert(*k, *v);
        }
        let map: HashMap<u64, u64, DefaultState> = HashMap::from_par_iter(pairs);
        assert_eq!(map.len(), expected.len());
        for (k, v) in expected.iter() {
            assert_eq!(map.get(k), Some(v));
        }
        let mut keys: Vec<u64> = map.par_keys().drive_unindexed().into_iter().cloned().collect();
        keys.sort();
        let mut want: Vec<u64> = expected.keys().cloned().collect();
        want.sort();
        assert_eq!(keys, want);
    }
}

#[test]
fn random_inserts_and_removes_follow_the_standard_map() {
    let mut rng = StdRng::seed_from_u64(7);
    let mut ours: HashMap<i64, u32, DefaultState> = HashMap::new();
    let mut theirs = std::collections::HashMap::new();
    for _ in 0..4000 {
        let key = rng.gen_range(-200..200);
        if rng.gen_bool(0.6) {
            let value = rng.gen();
            assert_eq!(ours.insert(key, value), theirs.insert(key, value));
        } else {
            assert_eq!(ours.remove(&key), theirs.remove(&key));
        }
        assert_eq!(ours.len(), theirs.len());
    }
    for (k, v) in theirs.iter() {
        assert_eq!(ours.get(k), Some(v));
    }
}

#[test]
fn more_shards_than_pairs_make_segments_of_one_bucket() {
    let items: Vec<(u64, u64)> = vec![(1, 1), (2, 2), (1, 3), (9, 9)];
    let built = build(items, &DefaultState::fresh(), 8, 0);
    assert_eq!(built.bits, 8);
    assert_eq!(built.table.capacity(), 256);
    assert_eq!(built.table.size(), 3);
    let map: HashMap<u64, u64, DefaultState> =
        HashMap::from_parts(built.table, built.bits, DefaultState::fresh());
    assert_eq!(map.get(&1), Some(&3));
    assert_eq!(map.get(&2), Some(&2));
    assert_eq!(map.get(&9), Some(&9));
    assert_eq!(map.get(&3), None);
}

#[test]
fn every_number_of_shards_builds_the_same_map() {
    let mut rng = StdRng::seed_from_u64(99);
    let items: Vec<(u32, u32)> = (0..5000).map(|_| (rng.gen_range(0..2000), rng.gen())).collect();
    let mut expected = std::collections::HashMap::new();
    for (k, v) in items.iter() {
        expected.insert(*k, *v);
    }
    for shard_bits in [0u32, 1, 3, 6, 10, 16] {
        let built = build(items.clone(), &DefaultState::fresh(), shard_bits, 0);
        assert!(built.rounds <= 1 << shard_bits);
        assert_eq!(built.table.size(), expected.len());
        let mut seen = 0;
        for bucket in built.table.buckets().iter().flatten() {
            assert_eq!(expected.get(&bucket.key), Some(&bucket.value));
            seen += 1;
        }
        assert_eq!(seen, expected.len());
    }
}

#[test]
fn room_is_left_for_the_pairs_to_come() {
    let built = build(vec![(1u64, 1u64)], &DefaultState::fresh(), 0, 1000);
    assert_eq!(built.bits, 11);
    assert_eq!(built.table.size(), 1);
}
