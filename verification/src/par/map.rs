//! Parallel traversal, comparison and construction of hash maps.
use crate::bulk::{build, shard_bits_for, Built};
use crate::key::{HashStrategy, TableKey};
use crate::map::{collected, lemma_built_map, lemma_distinct_keys, lemma_pairs_entries, HashMap};
use crate::par::table::{
    ParIntoIter, ParIter, ParIterMut, ParIterProducer, ParKeys, ParValues, ParValuesMut,
    SplitBuckets,
};
use crate::segment::flat;
use crate::table::pairs;
use vstd::prelude::*;
use vstd::std_specs::cmp::PartialEqSpec;

verus! {

/// The other map has the key of the pair, with a value that equals the pair's.
pub open spec fn agrees<K, V: PartialEq>(other: Map<K, V>, pair: (K, V)) -> bool {
    other.contains_key(pair.0) && pair.1.eq_spec(&other[pair.0])
}

/// The map after the pairs were inserted into it one after the other.
pub open spec fn extended<K, V>(m: Map<K, V>, items: Seq<(K, V)>) -> Map<K, V>
    decreases items.len(),
{
    if items.len() == 0 {
        m
    } else {
        extended(m, items.drop_last()).insert(items.last().0, items.last().1)
    }
}

/// Whether the other map agrees with every pair that the producer yields.
fn all_agree_fold<'a, K, V, S>(producer: ParIterProducer<'a, K, V>, other: &HashMap<K, V, S>) -> (b:
    bool)
    where
        K: TableKey + Send + Sync,
        V: PartialEq + Send + Sync,
        S: HashStrategy + Sync,

    requires
        producer.wf(),
        other.wf(),
    ensures
        V::obeys_eq_spec() ==> b == forall|i: int|
            0 <= i < producer.items().len() ==> agrees(other@, #[trigger] producer.items()[i]),
{
    let mut remaining = producer;
    let ghost all = producer.items();
    let ghost mut done: int = 0;
    proof {
        assert(all.skip(0) == all);
    }
    loop
        invariant
            remaining.wf(),
            other.wf(),
            all == producer.items(),
            0 <= done <= all.len(),
            remaining.items() == all.skip(done),
            V::obeys_eq_spec() ==> forall|i: int| 0 <= i < done ==> agrees(other@, #[trigger] all[i]),
        ensures
            V::obeys_eq_spec() ==> forall|i: int| 0 <= i < all.len() ==> agrees(other@, #[trigger] all[i]),
        decreases remaining.range().end() - remaining.range().start(),
    {
        let ghost rest = remaining.items();
        match remaining.next() {
            Some((key, value)) => {
                proof {
                    assert(rest == seq![(*key, *value)] + remaining.items());
                    assert(rest.len() > 0);
                    assert(all.skip(done)[0] == all[done]);
                    assert(all.skip(done + 1) == all.skip(done).skip(1));
                    assert((seq![(*key, *value)] + remaining.items()).skip(1) == remaining.items());
                }
                match other.get(key) {
                    Some(theirs) => {
                        if !(*value == *theirs) {
                            proof {
                                assert(V::obeys_eq_spec() ==> !agrees(other@, all[done]));
                            }
                            return false;
                        }
                    },
                    None => {
                        proof {
                            assert(!agrees(other@, all[done]));
                        }
                        return false;
                    },
                }
                proof {
                    done = done + 1;
                }
            },
            None => {
                proof {
                    assert(all.skip(done).len() == 0);
                }
                break ;
            },
        }
    }
    true
}

/// Whether the other map agrees with every pair that the producer yields. The
/// work is cut in two while `splits` lasts, and the halves are looked at side by
/// side.
pub fn all_agree<'a, K, V, S>(
    producer: ParIterProducer<'a, K, V>,
    other: &HashMap<K, V, S>,
    splits: usize,
) -> (b: bool)
    where
        K: TableKey + Send + Sync,
        V: PartialEq + Send + Sync,
        S: HashStrategy + Sync,

    requires
        producer.wf(),
        other.wf(),
    ensures
        V::obeys_eq_spec() ==> b == forall|i: int|
            0 <= i < producer.items().len() ==> agrees(other@, #[trigger] producer.items()[i]),
    decreases producer.range().end() - producer.range().start(),
{
    if splits == 0 {
        return all_agree_fold(producer, other);
    }
    let ghost whole = producer.items();
    let (left, right) = producer.split();
    match right {
        Some(right) => {
            let ghost first = left.items();
            let ghost second = right.items();
            let run_left = || -> (b: bool)
                ensures
                    V::obeys_eq_spec() ==> b == forall|i: int|
                        0 <= i < left.items().len() ==> agrees(other@, #[trigger] left.items()[i]),
                {
                    all_agree(left, other, splits / 2)
                };
            let run_right = || -> (b: bool)
                ensures
                    V::obeys_eq_spec() ==> b == forall|i: int|
                        0 <= i < right.items().len() ==> agrees(other@, #[trigger] right.items()[i]),
                {
                    all_agree(right, other, splits / 2)
                };
            let (a, b) = rayon::join(run_left, run_right);
            proof {
                if V::obeys_eq_spec() {
                    if a && b {
                        assert forall|i: int| 0 <= i < whole.len() implies agrees(
                            other@,
                            #[trigger] whole[i],
                        ) by {
                            if i < first.len() {
                                assert(whole[i] == first[i]);
                            } else {
                                assert(whole[i] == second[i - first.len()]);
                            }
                        }
                    } else if !a {
                        let i = choose|i: int| 0 <= i < first.len() && !agrees(other@, #[trigger] first[i]);
                        assert(whole[i] == first[i]);
                    } else {
                        let i = choose|i: int| 0 <= i < second.len() && !agrees(other@, #[trigger] second[i]);
                        assert(whole[i + first.len()] == second[i]);
                    }
                }
            }
            a && b
        },
        None => all_agree_fold(left, other),
    }
}

impl<K: TableKey + Send + Sync, V: Send + Sync, S: HashStrategy + Sync> HashMap<K, V, S> {
    /// A parallel traversal of the keys of the map.
    pub fn par_keys(&self) -> (r: ParKeys<'_, K, V>)
        ensures
            r.buckets() == self.slots(),
    {
        self.table().par_keys()
    }

    /// A parallel traversal of the values of the map.
    pub fn par_values(&self) -> (r: ParValues<'_, K, V>)
        ensures
            r.buckets() == self.slots(),
    {
        self.table().par_values()
    }

    /// A parallel traversal of the pairs of the map.
    pub fn par_iter(&self) -> (r: ParIter<'_, K, V>)
        ensures
            r.buckets() == self.slots(),
    {
        self.table().par_iter()
    }

    /// A parallel traversal of the map that may rewrite the values. What the
    /// traversal leaves in the table is what the map holds afterwards.
    pub fn par_values_mut(&mut self) -> (r: ParValuesMut<'_, K, V>)
        ensures
            r.table@ == old(self).slots(),
            final(self).slots() == final(r.table)@,
            final(self).counter() == final(r.table).spec_size(),
            r.table.spec_size() == old(self).counter(),
            final(self).spec_bits() == old(self).spec_bits(),
            final(self).strategy() == old(self).strategy(),
    {
        self.table_mut().par_values_mut()
    }

    /// A parallel traversal of the pairs of the map that may rewrite the values.
    pub fn par_iter_mut(&mut self) -> (r: ParIterMut<'_, K, V>)
        ensures
            r.table@ == old(self).slots(),
            final(self).slots() == final(r.table)@,
            final(self).counter() == final(r.table).spec_size(),
            r.table.spec_size() == old(self).counter(),
            final(self).spec_bits() == old(self).spec_bits(),
            final(self).strategy() == old(self).strategy(),
    {
        self.table_mut().par_iter_mut()
    }

    /// A parallel traversal that consumes the map.
    pub fn into_par_iter(self) -> (r: ParIntoIter<K, V>)
        ensures
            r.buckets() == self.slots(),
    {
        let (table, _, _) = self.into_parts();
        table.into_par_iter()
    }

    /// Collects the pairs into a map, inserting them in parallel. If several pairs
    /// have the same key, the last of them in the list gives the value, as if the
    /// pairs had been inserted one after the other.
    pub fn from_par_iter(par_iter: Vec<(K, V)>) -> (map: Self)
        requires
            par_iter@.len() <= usize::MAX / 8,
        ensures
            map.wf(),
            map@ == collected(par_iter@),
    {
        let hash_builder = S::fresh();
        // One or two shards for each processor, rounded up to a power of two.
        let shard_bits = shard_bits_for(num_cpus::get());
        let ghost items = par_iter@;
        let Built { table, bits, rounds } = build(par_iter, &hash_builder, shard_bits, 0);
        proof {
            lemma_built_map(items, hash_builder, table@, bits);
        }
        HashMap::from_parts(table, bits, hash_builder)
    }

    /// Inserts the pairs of the chunks into the map, one after the other, after it
    /// has made room for all of them at once.
    pub fn par_extend(&mut self, list: Vec<Vec<(K, V)>>)
        requires
            old(self).wf(),
            old(self)@.len() + flat(list@).len() <= usize::MAX / 8,
        ensures
            final(self).wf(),
            final(self)@ == extended(old(self)@, flat(list@)),
    {
        extend(self, list);
    }
}

/// Collecting pairs in bulk gives what inserting them one after the other into an
/// empty map gives.
pub proof fn lemma_collected_is_extended<K, V>(items: Seq<(K, V)>)
    ensures
        collected(items) == extended(Map::<K, V>::empty(), items),
    decreases items.len(),
{
    if items.len() > 0 {
        lemma_collected_is_extended(items.drop_last());
    }
}

/// A map grows by at most one key with each pair that is inserted.
pub proof fn lemma_extended_len<K, V>(m: Map<K, V>, items: Seq<(K, V)>)
    requires
        m.dom().finite(),
    ensures
        extended(m, items).dom().finite(),
        extended(m, items).len() <= m.len() + items.len(),
    decreases items.len(),
{
    if items.len() > 0 {
        lemma_extended_len(m, items.drop_last());
    }
}

/// Inserts the pairs of the chunks into the map, one after the other, after the
/// map has made room for all of them at once.
pub fn extend<K, V, S>(map: &mut HashMap<K, V, S>, list: Vec<Vec<(K, V)>>)
    where
        K: TableKey + Send + Sync,
        V: Send + Sync,
        S: HashStrategy + Sync,

    requires
        old(map).wf(),
        old(map)@.len() + flat(list@).len() <= usize::MAX / 8,
    ensures
        final(map).wf(),
        final(map)@ == extended(old(map)@, flat(list@)),
{
    let ghost chunks = list@;
    let ghost start = map@;
    let before = map.len();
    let mut total: usize = 0;
    let mut c: usize = 0;
    proof {
        assert(chunks.take(0) == Seq::<Vec<(K, V)>>::empty());
    }
    while c < list.len()
        invariant
            c <= list@.len(),
            chunks == list@,
            total == flat(chunks.take(c as int)).len(),
            flat(chunks).len() <= usize::MAX / 8,
        decreases list@.len() - c,
    {
        proof {
            assert(chunks.take(c as int + 1).drop_last() == chunks.take(c as int));
            assert(chunks == chunks.take(c as int + 1) + chunks.skip(c as int + 1));
            crate::segment::lemma_flat_concat(chunks.take(c as int + 1), chunks.skip(c as int + 1));
        }
        total = total + list[c].len();
        c += 1;
    }
    proof {
        assert(chunks.take(chunks.len() as int) == chunks);
    }
    map.reserve(total);
    for chunk in outer: list.into_iter()
        invariant
            outer.seq() == chunks,
            map.wf(),
            start.dom().finite(),
            start.len() + flat(chunks).len() <= usize::MAX / 8,
            map@ == extended(start, flat(chunks.take(outer.index() as int))),
    {
        let ghost done = flat(chunks.take(outer.index() as int));
        let ghost items = chunk@;
        proof {
            assert(chunks.take(outer.index() as int + 1).drop_last() == chunks.take(
                outer.index() as int,
            ));
            assert(chunks == chunks.take(outer.index() as int + 1) + chunks.skip(
                outer.index() as int + 1,
            ));
            crate::segment::lemma_flat_concat(
                chunks.take(outer.index() as int + 1),
                chunks.skip(outer.index() as int + 1),
            );
            assert(done + items.take(0) == done);
        }
        for pair in inner: chunk.into_iter()
            invariant
                inner.seq() == items,
                map.wf(),
                start.dom().finite(),
                start.len() + done.len() + items.len() <= usize::MAX / 8,
                map@ == extended(start, done + items.take(inner.index() as int)),
        {
            let ghost i = inner.index() as int;
            proof {
                assert((done + items.take(i + 1)) == (done + items.take(i)).push(pair));
                assert((done + items.take(i + 1)).drop_last() == done + items.take(i));
                lemma_extended_len(start, done + items.take(i));
            }
            let (key, value) = pair;
            map.insert(key, value);
        }
        proof {
            assert(items.take(items.len() as int) == items);
        }
    }
    proof {
        assert(chunks.take(chunks.len() as int) == chunks);
    }
}

impl<K: TableKey + Send + Sync, V: PartialEq + Send + Sync, S: HashStrategy + Sync> HashMap<K, V, S> {
    /// Whether the two maps have the same keys with equal values, found out in
    /// parallel.
    pub fn par_eq(&self, other: &Self) -> (b: bool)
        requires
            self.wf(),
            other.wf(),
        ensures
            V::obeys_eq_spec() ==> b == (self@.len() == other@.len() && forall|k: K|
                #[trigger] self@.contains_key(k) ==> other@.contains_key(k) && self@[k].eq_spec(
                    &other@[k],
                )),
    {
        if self.len() != other.len() {
            return false;
        }
        let table = self.table();
        let producer = ParIterProducer::from(SplitBuckets::new(table.buckets()), table);
        let ghost yielded = producer.items();
        let b = all_agree(producer, other, rayon::current_num_threads());
        proof {
            let g = self.slots();
            self.lemma_view();
            lemma_distinct_keys(g, self.strategy());
            lemma_pairs_entries(g);
            let all = pairs(g, 0, g.len() as int);
            assert(yielded == all);
            if V::obeys_eq_spec() {
                if b {
                    assert forall|k: K| #[trigger] self@.contains_key(k) implies other@.contains_key(
                        k,
                    ) && self@[k].eq_spec(&other@[k]) by {
                        let i = choose|i: int| 0 <= i < all.len() && (#[trigger] all[i]).0 == k;
                        assert(agrees(other@, all[i]));
                    }
                } else {
                    let i = choose|i: int| 0 <= i < all.len() && !agrees(other@, #[trigger] all[i]);
                    assert(self@.contains_key(all[i].0));
                }
            }
        }
        b
    }
}

} // verus!
