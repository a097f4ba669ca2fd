//! Splittable ranges of buckets and the parallel traversals built on them.
use crate::table::{
    all_empty, keys, lemma_occupied_members, lemma_occupied_none, lemma_occupied_split,
    lemma_occupied_step, lemma_occupied_tail, lemma_pairs_head, lemma_pairs_local, occupied, pairs,
    values, Entry, RawBucket, RawTable,
};
use vstd::prelude::*;

verus! {

/// A contiguous range of bucket indices that can cut itself in two.
#[derive(Clone, Copy)]
pub struct SplitBuckets {
    bucket: RawBucket,
    end: usize,
}

impl SplitBuckets {
    /// The first index of the range that has not been visited yet.
    pub closed spec fn start(&self) -> int {
        self.bucket.spec_index() as int
    }

    /// The index just past the range.
    pub closed spec fn end(&self) -> int {
        self.end as int
    }

    /// The range does not run backwards.
    pub open spec fn wf(&self) -> bool {
        0 <= self.start() <= self.end()
    }

    /// The range over all the buckets.
    pub fn new<K, V>(buckets: &Vec<Option<Entry<K, V>>>) -> (r: SplitBuckets)
        ensures
            r.start() == 0,
            r.end() == buckets@.len(),
            r.wf(),
    {
        SplitBuckets { bucket: RawBucket::at(0), end: buckets.len() }
    }

    /// Cuts the range at its midpoint. A range of fewer than two indices stays
    /// whole and there is no right half.
    pub fn split(&self) -> (r: (SplitBuckets, Option<SplitBuckets>))
        requires
            self.wf(),
        ensures
            r.0.start() == self.start(),
            r.0.wf(),
            self.end() - self.start() > 1 ==> r.1 is Some && r.1->0.wf() && r.0.end()
                == self.start() + (self.end() - self.start()) / 2 && r.1->0.start() == r.0.end()
                && r.1->0.end() == self.end(),
            self.end() - self.start() <= 1 ==> r.1 is None && r.0.end() == self.end(),
    {
        let mut left = *self;
        let len = left.end - left.bucket.index();
        if len > 1 {
            let mut right = left;
            right.bucket.index_add(len / 2);
            left.end = right.bucket.index();
            (left, Some(right))
        } else {
            (left, None)
        }
    }

    /// Steps to the next occupied bucket of the range, passing over empty ones.
    pub fn next<K, V>(&mut self, buckets: &Vec<Option<Entry<K, V>>>) -> (r: Option<RawBucket>)
        requires
            old(self).wf(),
            old(self).end() <= buckets@.len(),
        ensures
            final(self).wf(),
            final(self).end() == old(self).end(),
            match r {
                Some(b) => old(self).start() <= b.spec_index() < old(self).end()
                    && buckets@[b.spec_index() as int] is Some && all_empty(
                    buckets@,
                    old(self).start(),
                    b.spec_index() as int,
                ) && final(self).start() == b.spec_index() + 1,
                None => all_empty(buckets@, old(self).start(), old(self).end())
                    && final(self).start() == old(self).end(),
            },
    {
        while self.bucket.index() < self.end
            invariant
                self.wf(),
                self.end() == old(self).end(),
                self.end() <= buckets@.len(),
                old(self).start() <= self.start(),
                all_empty(buckets@, old(self).start(), self.start()),
            decreases self.end() - self.start(),
        {
            let item = self.bucket;
            self.bucket.index_add(1);
            if !item.is_empty(buckets) {
                return Some(item);
            }
        }
        None
    }
}

/// The pairs behind a sequence of borrowed pairs.
pub open spec fn pairs_of_refs<'a, K, V>(r: Seq<(&'a K, &'a V)>) -> Seq<(K, V)> {
    r.map_values(|p: (&'a K, &'a V)| (*p.0, *p.1))
}

/// The values behind a sequence of borrowed values.
pub open spec fn items_of_refs<'a, T>(r: Seq<&'a T>) -> Seq<T> {
    r.map_values(|p: &'a T| *p)
}

/// Parallel iterator over shared references to entries in a map.
pub struct ParIter<'a, K, V> {
    table: &'a RawTable<K, V>,
}

/// One unit of work of a traversal by borrowed pairs: a range of the table.
pub struct ParIterProducer<'a, K, V> {
    iter: SplitBuckets,
    table: &'a RawTable<K, V>,
}

impl<'a, K: Sync, V: Sync> ParIterProducer<'a, K, V> {
    /// The range the producer still has to visit.
    pub closed spec fn range(&self) -> SplitBuckets {
        self.iter
    }

    /// The buckets the producer reads.
    pub closed spec fn buckets(&self) -> Seq<Option<Entry<K, V>>> {
        self.table@
    }

    /// The range lies inside the table.
    pub open spec fn wf(&self) -> bool {
        self.range().wf() && self.range().end() <= self.buckets().len()
    }

    /// What the producer will yield: the pairs of its range, by ascending index.
    pub open spec fn items(&self) -> Seq<(K, V)> {
        pairs(self.buckets(), self.range().start(), self.range().end())
    }

    /// A producer for the range `iter` of `table`.
    pub fn from(iter: SplitBuckets, table: &'a RawTable<K, V>) -> (p: Self)
        ensures
            p.range() == iter,
            p.buckets() == table@,
    {
        ParIterProducer { iter, table }
    }

    /// Cuts the work in two halves that together yield what the whole would.
    pub fn split(self) -> (r: (Self, Option<Self>))
        requires
            self.wf(),
        ensures
            r.0.wf(),
            r.0.buckets() == self.buckets(),
            r.1 is Some ==> r.1->0.wf() && r.1->0.buckets() == self.buckets() && self.items()
                == r.0.items() + r.1->0.items() && r.0.range().end() - r.0.range().start()
                < self.range().end() - self.range().start() && r.1->0.range().end()
                - r.1->0.range().start() < self.range().end() - self.range().start(),
            r.1 is None ==> r.0.items() == self.items(),
            r.1 is Some <==> self.range().end() - self.range().start() > 1,
    {
        let (left, right) = self.iter.split();
        proof {
            if right is Some {
                lemma_occupied_split(
                    self.table@,
                    self.iter.start(),
                    left.end(),
                    self.iter.end(),
                );
                lemma_map_values_concat(
                    occupied(self.table@, self.iter.start(), left.end()),
                    occupied(self.table@, left.end(), self.iter.end()),
                    |i: int| (self.table@[i]->0.key, self.table@[i]->0.value),
                );
            }
        }
        match right {
            Some(right) => (
                ParIterProducer { iter: left, table: self.table },
                Some(ParIterProducer { iter: right, table: self.table }),
            ),
            None => (ParIterProducer { iter: left, table: self.table }, None),
        }
    }

    /// Steps to the next occupied bucket of the range and yields its pair.
    pub fn next(&mut self) -> (r: Option<(&'a K, &'a V)>)
        requires
            old(self).wf(),
        ensures
            final(self).wf(),
            final(self).buckets() == old(self).buckets(),
            match r {
                Some(p) => old(self).items() == seq![(*p.0, *p.1)] + final(self).items() && final(self).range().end() - final(self).range().start() < old(self).range().end() - old(self).range().start(),
                None => old(self).items().len() == 0 && final(self).items().len() == 0,
            },
    {
        let ghost cur = self.iter.start();
        let ghost end = self.iter.end();
        let buckets = self.table.buckets();
        match self.iter.next(buckets) {
            Some(bucket) => {
                let pair = bucket.pair(buckets);
                proof {
                    lemma_pairs_head(buckets@, cur, bucket.spec_index() as int, end);
                    assert(pairs(buckets@, cur, end) =~= seq![(*pair.0, *pair.1)] + pairs(
                        buckets@,
                        bucket.spec_index() as int + 1,
                        end,
                    ));
                }
                Some(pair)
            },
            None => {
                proof {
                    lemma_occupied_none(buckets@, cur, end);
                    lemma_occupied_none(buckets@, end, end);
                }
                None
            },
        }
    }

    /// Visits the range in ascending order and appends each pair to `folder`.
    pub fn fold_with(self, folder: Vec<(&'a K, &'a V)>) -> (r: Vec<(&'a K, &'a V)>)
        requires
            self.wf(),
        ensures
            pairs_of_refs(r@) == pairs_of_refs(folder@) + self.items(),
    {
        let mut iter = self.iter;
        let mut folder = folder;
        let buckets = self.table.buckets();
        let ghost init = pairs_of_refs(folder@);
        let ghost lo = self.iter.start();
        proof {
            assert(init + pairs(buckets@, lo, lo) == init);
        }
        loop
            invariant
                iter.wf(),
                iter.end() == self.iter.end(),
                iter.end() <= buckets@.len(),
                buckets@ == self.table@,
                lo == self.iter.start(),
                lo <= iter.start(),
                pairs_of_refs(folder@) == init + pairs(buckets@, lo, iter.start()),
            ensures
                pairs_of_refs(folder@) == init + pairs(buckets@, lo, self.iter.end()),
            decreases iter.end() - iter.start(),
        {
            let ghost cur = iter.start();
            let ghost before = folder@;
            match iter.next(buckets) {
                Some(bucket) => {
                    let pair = bucket.pair(buckets);
                    folder.push(pair);
                    proof {
                        let at = bucket.spec_index() as int;
                        lemma_occupied_step(buckets@, lo, cur, at);
                        assert(pairs_of_refs(folder@) == pairs_of_refs(before).push((*pair.0, *pair.1)));
                        assert(pairs(buckets@, lo, at + 1) == pairs(buckets@, lo, cur).push(
                            (*pair.0, *pair.1),
                        ));
                    }
                },
                None => {
                    proof {
                        lemma_occupied_tail(buckets@, lo, cur, self.iter.end());
                    }
                    break ;
                },
            }
        }
        folder
    }
}

/// Runs a traversal by borrowed pairs: cuts the work in two while `splits` lasts and
/// the range allows, runs the halves side by side and joins what they yield.
pub fn bridge_pairs<'a, K: Sync, V: Sync>(producer: ParIterProducer<'a, K, V>, splits: usize) -> (r:
    Vec<(&'a K, &'a V)>)
    requires
        producer.wf(),
    ensures
        pairs_of_refs(r@) == producer.items(),
    decreases producer.range().end() - producer.range().start(),
{
    let ghost whole = producer.items();
    if splits == 0 {
        let r = producer.fold_with(Vec::new());
        proof {
            assert(pairs_of_refs(Seq::<(&'a K, &'a V)>::empty()) + whole == whole);
        }
        return r;
    }
    let (left, right) = producer.split();
    match right {
        Some(right) => {
            let ghost left_items = left.items();
            let ghost right_items = right.items();
            let run_left = || -> (r: Vec<(&'a K, &'a V)>)
                ensures
                    pairs_of_refs(r@) == left.items(),
                {
                    bridge_pairs(left, splits / 2)
                };
            let run_right = || -> (r: Vec<(&'a K, &'a V)>)
                ensures
                    pairs_of_refs(r@) == right.items(),
                {
                    bridge_pairs(right, splits / 2)
                };
            let (mut a, mut b) = rayon::join(run_left, run_right);
            proof {
                lemma_map_values_concat(a@, b@, |p: (&'a K, &'a V)| (*p.0, *p.1));
            }
            a.append(&mut b);
            a
        },
        None => {
            let r = left.fold_with(Vec::new());
            proof {
                assert(pairs_of_refs(Seq::<(&'a K, &'a V)>::empty()) + whole == whole);
            }
            r
        },
    }
}

impl<'a, K: Sync, V: Sync> ParIter<'a, K, V> {
    /// The buckets the traversal reads.
    pub closed spec fn buckets(&self) -> Seq<Option<Entry<K, V>>> {
        self.table@
    }

    /// Visits every occupied bucket, in parallel, and collects the pairs. The
    /// result lists them by ascending bucket index, as a sequential walk would.
    pub fn drive_unindexed(self) -> (r: Vec<(&'a K, &'a V)>)
        ensures
            pairs_of_refs(r@) == pairs(self.buckets(), 0, self.buckets().len() as int),
    {
        let buckets = SplitBuckets::new(self.table.buckets());
        let producer = ParIterProducer::from(buckets, self.table);
        bridge_pairs(producer, rayon::current_num_threads())
    }
}

impl<K: Sync, V: Sync> RawTable<K, V> {
    /// A parallel traversal of the table by borrowed pairs.
    pub fn par_iter(&self) -> (r: ParIter<'_, K, V>)
        ensures
            r.buckets() == self@,
    {
        ParIter { table: self }
    }
}

/// Parallel iterator over shared references to keys in a map.
pub struct ParKeys<'a, K, V> {
    table: &'a RawTable<K, V>,
}

/// One unit of work of a traversal by borrowed keys: a range of the table.
pub struct ParKeysProducer<'a, K, V> {
    iter: SplitBuckets,
    table: &'a RawTable<K, V>,
}

impl<'a, K: Sync, V: Sync> ParKeysProducer<'a, K, V> {
    /// The range the producer still has to visit.
    pub closed spec fn range(&self) -> SplitBuckets {
        self.iter
    }

    /// The buckets the producer reads.
    pub closed spec fn buckets(&self) -> Seq<Option<Entry<K, V>>> {
        self.table@
    }

    /// The range lies inside the table.
    pub open spec fn wf(&self) -> bool {
        self.range().wf() && self.range().end() <= self.buckets().len()
    }

    /// What the producer will yield: the keys of its range, by ascending index.
    pub open spec fn items(&self) -> Seq<K> {
        keys(self.buckets(), self.range().start(), self.range().end())
    }

    /// A producer for the range `iter` of `table`.
    pub fn from(iter: SplitBuckets, table: &'a RawTable<K, V>) -> (p: Self)
        ensures
            p.range() == iter,
            p.buckets() == table@,
    {
        ParKeysProducer { iter, table }
    }

    /// Cuts the work in two halves that together yield what the whole would.
    pub fn split(self) -> (r: (Self, Option<Self>))
        requires
            self.wf(),
        ensures
            r.0.wf(),
            r.0.buckets() == self.buckets(),
            r.1 is Some ==> r.1->0.wf() && r.1->0.buckets() == self.buckets() && self.items()
                == r.0.items() + r.1->0.items() && r.0.range().end() - r.0.range().start()
                < self.range().end() - self.range().start() && r.1->0.range().end()
                - r.1->0.range().start() < self.range().end() - self.range().start(),
            r.1 is None ==> r.0.items() == self.items(),
            r.1 is Some <==> self.range().end() - self.range().start() > 1,
    {
        let (left, right) = self.iter.split();
        proof {
            if right is Some {
                lemma_occupied_split(
                    self.table@,
                    self.iter.start(),
                    left.end(),
                    self.iter.end(),
                );
                lemma_map_values_concat(
                    occupied(self.table@, self.iter.start(), left.end()),
                    occupied(self.table@, left.end(), self.iter.end()),
                    |i: int| self.table@[i]->0.key,
                );
            }
        }
        match right {
            Some(right) => (
                ParKeysProducer { iter: left, table: self.table },
                Some(ParKeysProducer { iter: right, table: self.table }),
            ),
            None => (ParKeysProducer { iter: left, table: self.table }, None),
        }
    }

    /// Steps to the next occupied bucket of the range and yields its key.
    pub fn next(&mut self) -> (r: Option<&'a K>)
        requires
            old(self).wf(),
        ensures
            final(self).wf(),
            final(self).buckets() == old(self).buckets(),
            match r {
                Some(p) => old(self).items() == seq![*p] + final(self).items() && final(self).range().end() - final(self).range().start() < old(self).range().end() - old(self).range().start(),
                None => old(self).items().len() == 0 && final(self).items().len() == 0,
            },
    {
        let ghost cur = self.iter.start();
        let ghost end = self.iter.end();
        let buckets = self.table.buckets();
        match self.iter.next(buckets) {
            Some(bucket) => {
                let pair = bucket.pair(buckets);
                proof {
                    lemma_pairs_head(buckets@, cur, bucket.spec_index() as int, end);
                    assert(keys(buckets@, cur, end) =~= seq![*pair.0] + keys(
                        buckets@,
                        bucket.spec_index() as int + 1,
                        end,
                    ));
                }
                Some(pair.0)
            },
            None => {
                proof {
                    lemma_occupied_none(buckets@, cur, end);
                    lemma_occupied_none(buckets@, end, end);
                }
                None
            },
        }
    }

    /// Visits the range in ascending order and appends each key to `folder`.
    pub fn fold_with(self, folder: Vec<&'a K>) -> (r: Vec<&'a K>)
        requires
            self.wf(),
        ensures
            items_of_refs(r@) == items_of_refs(folder@) + self.items(),
    {
        let mut iter = self.iter;
        let mut folder = folder;
        let buckets = self.table.buckets();
        let ghost init = items_of_refs(folder@);
        let ghost lo = self.iter.start();
        proof {
            assert(init + keys(buckets@, lo, lo) == init);
        }
        loop
            invariant
                iter.wf(),
                iter.end() == self.iter.end(),
                iter.end() <= buckets@.len(),
                buckets@ == self.table@,
                lo == self.iter.start(),
                lo <= iter.start(),
                items_of_refs(folder@) == init + keys(buckets@, lo, iter.start()),
            ensures
                items_of_refs(folder@) == init + keys(buckets@, lo, self.iter.end()),
            decreases iter.end() - iter.start(),
        {
            let ghost cur = iter.start();
            let ghost before = folder@;
            match iter.next(buckets) {
                Some(bucket) => {
                    let pair = bucket.pair(buckets);
                    folder.push(pair.0);
                    proof {
                        let at = bucket.spec_index() as int;
                        lemma_occupied_step(buckets@, lo, cur, at);
                        assert(items_of_refs(folder@) == items_of_refs(before).push(*pair.0));
                        assert(keys(buckets@, lo, at + 1) == keys(buckets@, lo, cur).push(*pair.0));
                    }
                },
                None => {
                    proof {
                        lemma_occupied_tail(buckets@, lo, cur, self.iter.end());
                    }
                    break ;
                },
            }
        }
        folder
    }
}

/// Runs a traversal by borrowed keys: cuts the work in two while `splits` lasts and
/// the range allows, runs the halves side by side and joins what they yield.
pub fn bridge_keys<'a, K: Sync, V: Sync>(producer: ParKeysProducer<'a, K, V>, splits: usize) -> (r:
    Vec<&'a K>)
    requires
        producer.wf(),
    ensures
        items_of_refs(r@) == producer.items(),
    decreases producer.range().end() - producer.range().start(),
{
    let ghost whole = producer.items();
    if splits == 0 {
        let r = producer.fold_with(Vec::new());
        proof {
            assert(items_of_refs(Seq::<&'a K>::empty()) + whole == whole);
        }
        return r;
    }
    let (left, right) = producer.split();
    match right {
        Some(right) => {
            let ghost left_items = left.items();
            let ghost right_items = right.items();
            let run_left = || -> (r: Vec<&'a K>)
                ensures
                    items_of_refs(r@) == left.items(),
                {
                    bridge_keys(left, splits / 2)
                };
            let run_right = || -> (r: Vec<&'a K>)
                ensures
                    items_of_refs(r@) == right.items(),
                {
                    bridge_keys(right, splits / 2)
                };
            let (mut a, mut b) = rayon::join(run_left, run_right);
            proof {
                lemma_map_values_concat(a@, b@, |p: &'a K| *p);
            }
            a.append(&mut b);
            a
        },
        None => {
            let r = left.fold_with(Vec::new());
            proof {
                assert(items_of_refs(Seq::<&'a K>::empty()) + whole == whole);
            }
            r
        },
    }
}

impl<'a, K: Sync, V: Sync> ParKeys<'a, K, V> {
    /// The buckets the traversal reads.
    pub closed spec fn buckets(&self) -> Seq<Option<Entry<K, V>>> {
        self.table@
    }

    /// Visits every occupied bucket, in parallel, and collects the keys. The
    /// result lists them by ascending bucket index, as a sequential walk would.
    pub fn drive_unindexed(self) -> (r: Vec<&'a K>)
        ensures
            items_of_refs(r@) == keys(self.buckets(), 0, self.buckets().len() as int),
    {
        let buckets = SplitBuckets::new(self.table.buckets());
        let producer = ParKeysProducer::from(buckets, self.table);
        bridge_keys(producer, rayon::current_num_threads())
    }
}

impl<K: Sync, V: Sync> RawTable<K, V> {
    /// A parallel traversal of the table by borrowed keys.
    pub fn par_keys(&self) -> (r: ParKeys<'_, K, V>)
        ensures
            r.buckets() == self@,
    {
        ParKeys { table: self }
    }
}

/// Parallel iterator over shared references to values in a map.
pub struct ParValues<'a, K, V> {
    table: &'a RawTable<K, V>,
}

/// One unit of work of a traversal by borrowed values: a range of the table.
pub struct ParValuesProducer<'a, K, V> {
    iter: SplitBuckets,
    table: &'a RawTable<K, V>,
}

impl<'a, K: Sync, V: Sync> ParValuesProducer<'a, K, V> {
    /// The range the producer still has to visit.
    pub closed spec fn range(&self) -> SplitBuckets {
        self.iter
    }

    /// The buckets the producer reads.
    pub closed spec fn buckets(&self) -> Seq<Option<Entry<K, V>>> {
        self.table@
    }

    /// The range lies inside the table.
    pub open spec fn wf(&self) -> bool {
        self.range().wf() && self.range().end() <= self.buckets().len()
    }

    /// What the producer will yield: the values of its range, by ascending index.
    pub open spec fn items(&self) -> Seq<V> {
        values(self.buckets(), self.range().start(), self.range().end())
    }

    /// A producer for the range `iter` of `table`.
    pub fn from(iter: SplitBuckets, table: &'a RawTable<K, V>) -> (p: Self)
        ensures
            p.range() == iter,
            p.buckets() == table@,
    {
        ParValuesProducer { iter, table }
    }

    /// Cuts the work in two halves that together yield what the whole would.
    pub fn split(self) -> (r: (Self, Option<Self>))
        requires
            self.wf(),
        ensures
            r.0.wf(),
            r.0.buckets() == self.buckets(),
            r.1 is Some ==> r.1->0.wf() && r.1->0.buckets() == self.buckets() && self.items()
                == r.0.items() + r.1->0.items() && r.0.range().end() - r.0.range().start()
                < self.range().end() - self.range().start() && r.1->0.range().end()
                - r.1->0.range().start() < self.range().end() - self.range().start(),
            r.1 is None ==> r.0.items() == self.items(),
            r.1 is Some <==> self.range().end() - self.range().start() > 1,
    {
        let (left, right) = self.iter.split();
        proof {
            if right is Some {
                lemma_occupied_split(
                    self.table@,
                    self.iter.start(),
                    left.end(),
                    self.iter.end(),
                );
                lemma_map_values_concat(
                    occupied(self.table@, self.iter.start(), left.end()),
                    occupied(self.table@, left.end(), self.iter.end()),
                    |i: int| self.table@[i]->0.value,
                );
            }
        }
        match right {
            Some(right) => (
                ParValuesProducer { iter: left, table: self.table },
                Some(ParValuesProducer { iter: right, table: self.table }),
            ),
            None => (ParValuesProducer { iter: left, table: self.table }, None),
        }
    }

    /// Steps to the next occupied bucket of the range and yields its value.
    pub fn next(&mut self) -> (r: Option<&'a V>)
        requires
            old(self).wf(),
        ensures
            final(self).wf(),
            final(self).buckets() == old(self).buckets(),
            match r {
                Some(p) => old(self).items() == seq![*p] + final(self).items() && final(self).range().end() - final(self).range().start() < old(self).range().end() - old(self).range().start(),
                None => old(self).items().len() == 0 && final(self).items().len() == 0,
            },
    {
        let ghost cur = self.iter.start();
        let ghost end = self.iter.end();
        let buckets = self.table.buckets();
        match self.iter.next(buckets) {
            Some(bucket) => {
                let pair = bucket.pair(buckets);
                proof {
                    lemma_pairs_head(buckets@, cur, bucket.spec_index() as int, end);
                    assert(values(buckets@, cur, end) =~= seq![*pair.1] + values(
                        buckets@,
                        bucket.spec_index() as int + 1,
                        end,
                    ));
                }
                Some(pair.1)
            },
            None => {
                proof {
                    lemma_occupied_none(buckets@, cur, end);
                    lemma_occupied_none(buckets@, end, end);
                }
                None
            },
        }
    }

    /// Visits the range in ascending order and appends each value to `folder`.
    pub fn fold_with(self, folder: Vec<&'a V>) -> (r: Vec<&'a V>)
        requires
            self.wf(),
        ensures
            items_of_refs(r@) == items_of_refs(folder@) + self.items(),
    {
        let mut iter = self.iter;
        let mut folder = folder;
        let buckets = self.table.buckets();
        let ghost init = items_of_refs(folder@);
        let ghost lo = self.iter.start();
        proof {
            assert(init + values(buckets@, lo, lo) == init);
        }
        loop
            invariant
                iter.wf(),
                iter.end() == self.iter.end(),
                iter.end() <= buckets@.len(),
                buckets@ == self.table@,
                lo == self.iter.start(),
                lo <= iter.start(),
                items_of_refs(folder@) == init + values(buckets@, lo, iter.start()),
            ensures
                items_of_refs(folder@) == init + values(buckets@, lo, self.iter.end()),
            decreases iter.end() - iter.start(),
        {
            let ghost cur = iter.start();
            let ghost before = folder@;
            match iter.next(buckets) {
                Some(bucket) => {
                    let pair = bucket.pair(buckets);
                    folder.push(pair.1);
                    proof {
                        let at = bucket.spec_index() as int;
                        lemma_occupied_step(buckets@, lo, cur, at);
                        assert(items_of_refs(folder@) == items_of_refs(before).push(*pair.1));
                        assert(values(buckets@, lo, at + 1) == values(buckets@, lo, cur).push(*pair.1));
                    }
                },
                None => {
                    proof {
                        lemma_occupied_tail(buckets@, lo, cur, self.iter.end());
                    }
                    break ;
                },
            }
        }
        folder
    }
}

/// Runs a traversal by borrowed values: cuts the work in two while `splits` lasts and
/// the range allows, runs the halves side by side and joins what they yield.
pub fn bridge_values<'a, K: Sync, V: Sync>(producer: ParValuesProducer<'a, K, V>, splits: usize) -> (r:
    Vec<&'a V>)
    requires
        producer.wf(),
    ensures
        items_of_refs(r@) == producer.items(),
    decreases producer.range().end() - producer.range().start(),
{
    let ghost whole = producer.items();
    if splits == 0 {
        let r = producer.fold_with(Vec::new());
        proof {
            assert(items_of_refs(Seq::<&'a V>::empty()) + whole == whole);
        }
        return r;
    }
    let (left, right) = producer.split();
    match right {
        Some(right) => {
            let ghost left_items = left.items();
            let ghost right_items = right.items();
            let run_left = || -> (r: Vec<&'a V>)
                ensures
                    items_of_refs(r@) == left.items(),
                {
                    bridge_values(left, splits / 2)
                };
            let run_right = || -> (r: Vec<&'a V>)
                ensures
                    items_of_refs(r@) == right.items(),
                {
                    bridge_values(right, splits / 2)
                };
            let (mut a, mut b) = rayon::join(run_left, run_right);
            proof {
                lemma_map_values_concat(a@, b@, |p: &'a V| *p);
            }
            a.append(&mut b);
            a
        },
        None => {
            let r = left.fold_with(Vec::new());
            proof {
                assert(items_of_refs(Seq::<&'a V>::empty()) + whole == whole);
            }
            r
        },
    }
}

impl<'a, K: Sync, V: Sync> ParValues<'a, K, V> {
    /// The buckets the traversal reads.
    pub closed spec fn buckets(&self) -> Seq<Option<Entry<K, V>>> {
        self.table@
    }

    /// Visits every occupied bucket, in parallel, and collects the values. The
    /// result lists them by ascending bucket index, as a sequential walk would.
    pub fn drive_unindexed(self) -> (r: Vec<&'a V>)
        ensures
            items_of_refs(r@) == values(self.buckets(), 0, self.buckets().len() as int),
    {
        let buckets = SplitBuckets::new(self.table.buckets());
        let producer = ParValuesProducer::from(buckets, self.table);
        bridge_values(producer, rayon::current_num_threads())
    }
}

impl<K: Sync, V: Sync> RawTable<K, V> {
    /// A parallel traversal of the table by borrowed values.
    pub fn par_values(&self) -> (r: ParValues<'_, K, V>)
        ensures
            r.buckets() == self@,
    {
        ParValues { table: self }
    }
}

impl<K: Sync, V: Sync> RawTable<K, V> {
    /// The pairs of the table, met by walking the buckets one after the other.
    pub fn iter(&self) -> (r: Vec<(&K, &V)>)
        ensures
            pairs_of_refs(r@) == pairs(self@, 0, self@.len() as int),
    {
        let producer = ParIterProducer::from(SplitBuckets::new(self.buckets()), self);
        let r = producer.fold_with(Vec::new());
        proof {
            assert(pairs_of_refs(Seq::<(&K, &V)>::empty()) + producer.items() == producer.items());
        }
        r
    }

    /// The keys of the table, met by walking the buckets one after the other.
    pub fn keys(&self) -> (r: Vec<&K>)
        ensures
            items_of_refs(r@) == keys(self@, 0, self@.len() as int),
    {
        let producer = ParKeysProducer::from(SplitBuckets::new(self.buckets()), self);
        let r = producer.fold_with(Vec::new());
        proof {
            assert(items_of_refs(Seq::<&K>::empty()) + producer.items() == producer.items());
        }
        r
    }

    /// The values of the table, met by walking the buckets one after the other.
    pub fn values(&self) -> (r: Vec<&V>)
        ensures
            items_of_refs(r@) == values(self@, 0, self@.len() as int),
    {
        let producer = ParValuesProducer::from(SplitBuckets::new(self.buckets()), self);
        let r = producer.fold_with(Vec::new());
        proof {
            assert(items_of_refs(Seq::<&V>::empty()) + producer.items() == producer.items());
        }
        r
    }
}

/// Parallel iterator over the entries in a map, consuming it.
pub struct ParIntoIter<K, V> {
    table: RawTable<K, V>,
}

/// One unit of work of a consuming traversal. It owns the buckets of its part of
/// the table; the buckets it has passed are empty.
pub struct ParIntoIterProducer<K, V> {
    iter: SplitBuckets,
    slots: Vec<Option<Entry<K, V>>>,
}

/// What a consuming traversal leaves behind.
pub struct Drained<K, V> {
    /// The pairs that were handed over, by ascending bucket index.
    pub items: Vec<(K, V)>,
    /// How many pairs were dropped in place because nobody took them.
    pub dropped: usize,
    /// The buckets, all of them empty now.
    pub slots: Vec<Option<Entry<K, V>>>,
}

/// The pairs that a consuming traversal of `chunk` hands over when the work is cut
/// in two while `splits` lasts and each unit of work hands over at most `limit`.
pub open spec fn taken<K, V>(chunk: Seq<Option<Entry<K, V>>>, splits: nat, limit: nat) -> Seq<
    (K, V),
>
    decreases chunk.len(),
{
    let all = pairs(chunk, 0, chunk.len() as int);
    if splits > 0 && chunk.len() > 1 {
        let mid = (chunk.len() / 2) as int;
        taken(chunk.subrange(0, mid), splits / 2, limit) + taken(
            chunk.subrange(mid, chunk.len() as int),
            splits / 2,
            limit,
        )
    } else if limit < all.len() {
        all.take(limit as int)
    } else {
        all
    }
}

/// With no limit that bites, a consuming traversal hands over every pair of the
/// chunk, by ascending bucket index, however the work is cut.
pub proof fn lemma_taken_all<K, V>(chunk: Seq<Option<Entry<K, V>>>, splits: nat, limit: nat)
    requires
        limit >= chunk.len(),
    ensures
        taken(chunk, splits, limit) == pairs(chunk, 0, chunk.len() as int),
    decreases chunk.len(),
{
    let n = chunk.len() as int;
    lemma_occupied_members(chunk, 0, n);
    if splits > 0 && chunk.len() > 1 {
        let mid = n / 2;
        lemma_taken_all(chunk.subrange(0, mid), splits / 2, limit);
        lemma_taken_all(chunk.subrange(mid, n), splits / 2, limit);
        lemma_pairs_local(chunk, chunk.subrange(0, mid), 0, mid, 0);
        lemma_pairs_local(chunk, chunk.subrange(mid, n), mid, n, -mid);
        lemma_occupied_split(chunk, 0, mid, n);
        lemma_map_values_concat(
            occupied(chunk, 0, mid),
            occupied(chunk, mid, n),
            |i: int| (chunk[i]->0.key, chunk[i]->0.value),
        );
    }
}

impl<K: Send, V: Send> ParIntoIterProducer<K, V> {
    /// The range the producer still has to visit.
    pub closed spec fn range(&self) -> SplitBuckets {
        self.iter
    }

    /// The buckets the producer owns.
    pub closed spec fn slots(&self) -> Seq<Option<Entry<K, V>>> {
        self.slots@
    }

    /// The range ends where the buckets end, and the buckets before it are empty.
    pub open spec fn wf(&self) -> bool {
        &&& self.range().wf()
        &&& self.range().end() == self.slots().len()
        &&& all_empty(self.slots(), 0, self.range().start())
    }

    /// The pairs the producer still holds, by ascending index.
    pub open spec fn items(&self) -> Seq<(K, V)> {
        pairs(self.slots(), self.range().start(), self.range().end())
    }

    /// A producer that owns `slots` and has visited none of them.
    pub fn from(slots: Vec<Option<Entry<K, V>>>) -> (p: Self)
        ensures
            p.wf(),
            p.slots() == slots@,
            p.range().start() == 0,
    {
        let iter = SplitBuckets::new(&slots);
        ParIntoIterProducer { iter, slots }
    }

    /// Cuts the work, and the buckets with it, in two halves.
    pub fn split(self) -> (r: (Self, Option<Self>))
        requires
            self.wf(),
        ensures
            r.0.wf(),
            r.1 is Some <==> self.range().end() - self.range().start() > 1,
            r.1 is None ==> r.0.slots() == self.slots() && r.0.range().start()
                == self.range().start(),
            r.1 is Some ==> r.1->0.wf() && r.1->0.range().start() == 0 && r.0.range().start()
                == self.range().start() && r.0.slots() == self.slots().subrange(
                0,
                self.range().start() + (self.range().end() - self.range().start()) / 2,
            ) && r.1->0.slots() == self.slots().subrange(
                self.range().start() + (self.range().end() - self.range().start()) / 2,
                self.slots().len() as int,
            ),
    {
        let mut slots = self.slots;
        let (left, right) = self.iter.split();
        match right {
            Some(right) => {
                let mid = self.iter.end - (right.end - right.bucket.index());
                let right_slots = slots.split_off(mid);
                let right_iter = SplitBuckets::new(&right_slots);
                (
                    ParIntoIterProducer { iter: left, slots },
                    Some(ParIntoIterProducer { iter: right_iter, slots: right_slots }),
                )
            },
            None => (ParIntoIterProducer { iter: left, slots }, None),
        }
    }

    /// Hands over pairs in ascending order, emptying their buckets, until the range
    /// is exhausted or `folder` has received `limit` pairs from this call.
    pub fn fold_with(&mut self, folder: Vec<(K, V)>, limit: usize) -> (r: Vec<(K, V)>)
        requires
            old(self).wf(),
        ensures
            final(self).wf(),
            final(self).slots().len() == old(self).slots().len(),
            limit < old(self).items().len() ==> r@ == folder@ + old(self).items().take(
                limit as int,
            ) && final(self).items() == old(self).items().skip(limit as int),
            limit >= old(self).items().len() ==> r@ == folder@ + old(self).items()
                && final(self).items().len() == 0,
    {
        let mut folder = folder;
        let mut given: usize = 0;
        let ghost all = self.items();
        let ghost init = folder@;
        proof {
            assert(all.take(0) == Seq::<(K, V)>::empty());
            assert(init + Seq::<(K, V)>::empty() == init);
            assert(all.skip(0) == all);
        }
        while given < limit
            invariant
                self.wf(),
                self.slots().len() == old(self).slots().len(),
                all == old(self).items(),
                given <= limit,
                given <= all.len(),
                folder@ == init + all.take(given as int),
                self.items() == all.skip(given as int),
            ensures
                self.wf(),
                self.slots().len() == old(self).slots().len(),
                given <= all.len(),
                folder@ == init + all.take(given as int),
                self.items() == all.skip(given as int),
                given == limit || given == all.len(),
            decreases self.range().end() - self.range().start(),
        {
            let ghost before = self.slots@;
            let ghost cur = self.iter.start();
            let ghost end = self.iter.end();
            match self.iter.next(&self.slots) {
                Some(bucket) => {
                    let ghost at = bucket.spec_index() as int;
                    proof {
                        lemma_pairs_head(before, cur, at, end);
                    }
                    match bucket.take(&mut self.slots) {
                        Some(entry) => {
                            folder.push((entry.key, entry.value));
                        },
                        None => {},
                    }
                    proof {
                        lemma_pairs_local(before, self.slots@, at + 1, end, 0);
                        assert(all.skip(given as int)[0] == all[given as int]);
                        assert(all.take(given as int + 1) == all.take(given as int).push(
                            all[given as int],
                        ));
                        assert(all.skip(given as int + 1) == all.skip(given as int).skip(1));
                        assert((seq![(before[at]->0.key, before[at]->0.value)] + pairs(
                            before,
                            at + 1,
                            end,
                        )).skip(1) == pairs(before, at + 1, end));
                    }
                    given = given + 1;
                },
                None => {
                    proof {
                        lemma_occupied_none(before, cur, end);
                        lemma_occupied_none(before, end, end);
                        assert(all.skip(given as int).len() == 0);
                    }
                    break ;
                },
            }
        }
        proof {
            if limit >= all.len() {
                assert(all.take(all.len() as int) == all);
            }
        }
        folder
    }

    /// Walks what is left of the range, drops each pair in place and empties its
    /// bucket. Returns how many pairs it dropped, and the buckets.
    pub fn finish(self) -> (r: (usize, Vec<Option<Entry<K, V>>>))
        requires
            self.wf(),
        ensures
            r.0 == self.items().len(),
            r.1@.len() == self.slots().len(),
            all_empty(r.1@, 0, r.1@.len() as int),
    {
        let mut iter = self.iter;
        let mut slots = self.slots;
        let mut dropped: usize = 0;
        let ghost all = self.items();
        let ghost end = iter.end();
        proof {
            lemma_occupied_members(slots@, iter.start(), end);
        }
        loop
            invariant
                iter.wf(),
                iter.end() == end,
                end == slots@.len(),
                slots@.len() == self.slots().len(),
                all_empty(slots@, 0, iter.start()),
                dropped + pairs(slots@, iter.start(), end).len() == all.len(),
                all.len() <= end,
            ensures
                dropped == all.len(),
                slots@.len() == self.slots().len(),
                all_empty(slots@, 0, slots@.len() as int),
            decreases iter.end() - iter.start(),
        {
            let ghost before = slots@;
            let ghost cur = iter.start();
            match iter.next(&slots) {
                Some(bucket) => {
                    let ghost at = bucket.spec_index() as int;
                    proof {
                        lemma_pairs_head(before, cur, at, end);
                    }
                    bucket.set_empty(&mut slots);
                    proof {
                        lemma_pairs_local(before, slots@, at + 1, end, 0);
                    }
                    dropped = dropped + 1;
                },
                None => {
                    proof {
                        lemma_occupied_none(before, cur, end);
                    }
                    break ;
                },
            }
        }
        (dropped, slots)
    }
}

/// Runs a consuming traversal of the producer's buckets: cuts the work in two while
/// `splits` lasts and the range allows, and lets each unit of work hand over at most
/// `limit` pairs before it drops the rest. Every bucket is empty afterwards.
pub fn bridge_into<K: Send, V: Send>(
    producer: ParIntoIterProducer<K, V>,
    splits: usize,
    limit: usize,
) -> (r: Drained<K, V>)
    requires
        producer.wf(),
        producer.range().start() == 0,
    ensures
        r.items@ == taken(producer.slots(), splits as nat, limit as nat),
        r.items@.len() + r.dropped == pairs(
            producer.slots(),
            0,
            producer.slots().len() as int,
        ).len(),
        r.slots@.len() == producer.slots().len(),
        all_empty(r.slots@, 0, r.slots@.len() as int),
    decreases producer.slots().len(),
{
    let ghost chunk = producer.slots();
    let ghost n = chunk.len() as int;
    proof {
        lemma_occupied_members(chunk, 0, n);
    }
    if splits == 0 {
        let mut producer = producer;
        let items = producer.fold_with(Vec::new(), limit);
        let (dropped, slots) = producer.finish();
        proof {
            let all = pairs(chunk, 0, n);
            assert(Seq::<(K, V)>::empty() + all == all);
            assert(Seq::<(K, V)>::empty() + all.take(limit as int) == all.take(limit as int));
        }
        return Drained { items, dropped, slots };
    }
    let (left, right) = producer.split();
    match right {
        Some(right) => {
            proof {
                let mid = n / 2;
                lemma_pairs_local(chunk, chunk.subrange(0, mid), 0, mid, 0);
                lemma_pairs_local(chunk, chunk.subrange(mid, n), mid, n, -mid);
                lemma_occupied_split(chunk, 0, mid, n);
                lemma_occupied_members(chunk, 0, mid);
                lemma_occupied_members(chunk, mid, n);
            }
            let run_left = || -> (r: Drained<K, V>)
                ensures
                    r.items@ == taken(left.slots(), (splits / 2) as nat, limit as nat),
                    r.items@.len() + r.dropped == pairs(
                        left.slots(),
                        0,
                        left.slots().len() as int,
                    ).len(),
                    r.slots@.len() == left.slots().len(),
                    all_empty(r.slots@, 0, r.slots@.len() as int),
                {
                    bridge_into(left, splits / 2, limit)
                };
            let run_right = || -> (r: Drained<K, V>)
                ensures
                    r.items@ == taken(right.slots(), (splits / 2) as nat, limit as nat),
                    r.items@.len() + r.dropped == pairs(
                        right.slots(),
                        0,
                        right.slots().len() as int,
                    ).len(),
                    r.slots@.len() == right.slots().len(),
                    all_empty(r.slots@, 0, r.slots@.len() as int),
                {
                    bridge_into(right, splits / 2, limit)
                };
            let (a, b) = rayon::join(run_left, run_right);
            let mut items = a.items;
            let mut more = b.items;
            items.append(&mut more);
            let mut slots = a.slots;
            let mut rest = b.slots;
            slots.append(&mut rest);
            Drained { items, dropped: a.dropped + b.dropped, slots }
        },
        None => {
            let mut left = left;
            let items = left.fold_with(Vec::new(), limit);
            let (dropped, slots) = left.finish();
            proof {
                let all = pairs(chunk, 0, n);
                assert(Seq::<(K, V)>::empty() + all == all);
                assert(Seq::<(K, V)>::empty() + all.take(limit as int) == all.take(limit as int));
            }
            Drained { items, dropped, slots }
        },
    }
}

impl<K: Send, V: Send> ParIntoIter<K, V> {
    /// The buckets the traversal will consume.
    pub closed spec fn buckets(&self) -> Seq<Option<Entry<K, V>>> {
        self.table@
    }

    /// Consumes the table in parallel and collects every pair, by ascending bucket
    /// index.
    pub fn drive_unindexed(self) -> (r: Vec<(K, V)>)
        ensures
            r@ == pairs(self.buckets(), 0, self.buckets().len() as int),
    {
        let splits = rayon::current_num_threads();
        let capacity = self.table.capacity();
        let producer = ParIntoIterProducer::from(self.table.into_buckets());
        let drained = bridge_into(producer, splits, capacity);
        proof {
            lemma_taken_all(self.buckets(), splits as nat, capacity as nat);
        }
        drained.items
    }

    /// Consumes the table in parallel while every unit of work stops handing pairs
    /// over after `limit` of them and drops the rest in place. Whatever the limit
    /// and however the work was cut, the table that comes back has every bucket
    /// empty and its counter at zero, and each pair was either handed over or
    /// dropped.
    pub fn drive_limited(self, limit: usize) -> (r: (Vec<(K, V)>, usize, RawTable<K, V>))
        ensures
            exists|splits: nat| r.0@ == taken(self.buckets(), splits, limit as nat),
            r.0@.len() + r.1 == pairs(self.buckets(), 0, self.buckets().len() as int).len(),
            r.2@.len() == self.buckets().len(),
            all_empty(r.2@, 0, r.2@.len() as int),
            r.2.spec_size() == 0,
            r.2.counted(),
    {
        let splits = rayon::current_num_threads();
        let mut table = self.table;
        // The table counts as drained from here on.
        table.set_size(0);
        let producer = ParIntoIterProducer::from(table.into_buckets());
        let drained = bridge_into(producer, splits, limit);
        proof {
            lemma_occupied_none(drained.slots@, 0, drained.slots@.len() as int);
            assert(drained.items@ == taken(self.buckets(), splits as nat, limit as nat));
        }
        (drained.items, drained.dropped, RawTable::from_buckets(drained.slots, 0))
    }
}

impl<K: Send, V: Send> RawTable<K, V> {
    /// A parallel traversal that consumes the table.
    pub fn into_par_iter(self) -> (r: ParIntoIter<K, V>)
        ensures
            r.buckets() == self@,
    {
        ParIntoIter { table: self }
    }
}

/// Parallel iterator over mutable references to entries in a map.
pub struct ParIterMut<'a, K, V> {
    pub table: &'a mut RawTable<K, V>,
}

/// One unit of work of a traversal that rewrites values. It owns the buckets of its
/// part of the table while it works on them.
pub struct ParIterMutProducer<K, V> {
    iter: SplitBuckets,
    slots: Vec<Option<Entry<K, V>>>,
}

/// The buckets `t` are the buckets `s` with the value of every occupied bucket
/// among `lo..hi` replaced by what `f` made of its key and its old value; nothing
/// else differs.
pub open spec fn rewritten<K, V, F: Fn(&K, V) -> V>(
    f: F,
    s: Seq<Option<Entry<K, V>>>,
    t: Seq<Option<Entry<K, V>>>,
    lo: int,
    hi: int,
) -> bool {
    &&& t.len() == s.len()
    &&& forall|i: int|
        0 <= i < s.len() ==> if lo <= i < hi && s[i] is Some {
            &&& (#[trigger] t[i]) is Some
            &&& t[i]->0.hash == s[i]->0.hash
            &&& t[i]->0.key == s[i]->0.key
            &&& call_ensures(f, (&s[i]->0.key, s[i]->0.value), t[i]->0.value)
        } else {
            t[i] == s[i]
        }
}

impl<K: Send, V: Send> ParIterMutProducer<K, V> {
    /// The range the producer still has to visit.
    pub closed spec fn range(&self) -> SplitBuckets {
        self.iter
    }

    /// The buckets the producer owns.
    pub closed spec fn slots(&self) -> Seq<Option<Entry<K, V>>> {
        self.slots@
    }

    /// The range ends where the buckets end.
    pub open spec fn wf(&self) -> bool {
        self.range().wf() && self.range().end() == self.slots().len()
    }

    /// A producer that owns `slots` and has visited none of them.
    pub fn from(slots: Vec<Option<Entry<K, V>>>) -> (p: Self)
        ensures
            p.wf(),
            p.slots() == slots@,
            p.range().start() == 0,
    {
        let iter = SplitBuckets::new(&slots);
        ParIterMutProducer { iter, slots }
    }

    /// Cuts the work, and the buckets with it, in two halves.
    pub fn split(self) -> (r: (Self, Option<Self>))
        requires
            self.wf(),
        ensures
            r.0.wf(),
            r.1 is Some <==> self.range().end() - self.range().start() > 1,
            r.1 is None ==> r.0.slots() == self.slots() && r.0.range().start()
                == self.range().start(),
            r.1 is Some ==> r.1->0.wf() && r.1->0.range().start() == 0 && r.0.range().start()
                == self.range().start() && r.0.slots() == self.slots().subrange(
                0,
                self.range().start() + (self.range().end() - self.range().start()) / 2,
            ) && r.1->0.slots() == self.slots().subrange(
                self.range().start() + (self.range().end() - self.range().start()) / 2,
                self.slots().len() as int,
            ),
    {
        let mut slots = self.slots;
        let (left, right) = self.iter.split();
        match right {
            Some(right) => {
                let mid = self.iter.end - (right.end - right.bucket.index());
                let right_slots = slots.split_off(mid);
                let right_iter = SplitBuckets::new(&right_slots);
                (
                    ParIterMutProducer { iter: left, slots },
                    Some(ParIterMutProducer { iter: right_iter, slots: right_slots }),
                )
            },
            None => (ParIterMutProducer { iter: left, slots }, None),
        }
    }

    /// Visits the range in ascending order and replaces each value by what `f`
    /// makes of the key and the old value. Returns the buckets.
    pub fn fold_with<F: Fn(&K, V) -> V>(self, f: &F) -> (r: Vec<Option<Entry<K, V>>>)
        requires
            self.wf(),
            forall|k: &K, v: V| call_requires(*f, (k, v)),
        ensures
            rewritten(*f, self.slots(), r@, self.range().start(), self.range().end()),
    {
        let mut iter = self.iter;
        let mut slots = self.slots;
        let ghost lo = iter.start();
        loop
            invariant
                iter.wf(),
                iter.end() == self.iter.end(),
                iter.end() == slots@.len(),
                lo == self.iter.start(),
                lo <= iter.start(),
                forall|k: &K, v: V| call_requires(*f, (k, v)),
                rewritten(*f, self.slots@, slots@, lo, iter.start()),
            ensures
                rewritten(*f, self.slots@, slots@, lo, self.iter.end()),
            decreases iter.end() - iter.start(),
        {
            let ghost before = slots@;
            match iter.next(&slots) {
                Some(bucket) => {
                    match bucket.take(&mut slots) {
                        Some(entry) => {
                            let Entry { hash, key, value } = entry;
                            let value = f(&key, value);
                            let at = bucket.index();
                            slots[at] = Some(Entry { hash, key, value });
                        },
                        None => {},
                    }
                },
                None => {
                    break ;
                },
            }
        }
        slots
    }
}

/// Runs a traversal that rewrites values: cuts the work in two while `splits` lasts
/// and the range allows, and rewrites the halves side by side.
pub fn bridge_mut<K: Send, V: Send, F: Fn(&K, V) -> V + Sync>(
    producer: ParIterMutProducer<K, V>,
    splits: usize,
    f: &F,
) -> (r: Vec<Option<Entry<K, V>>>)
    requires
        producer.wf(),
        producer.range().start() == 0,
        forall|k: &K, v: V| call_requires(*f, (k, v)),
    ensures
        rewritten(*f, producer.slots(), r@, 0, producer.slots().len() as int),
    decreases producer.slots().len(),
{
    if splits == 0 {
        return producer.fold_with(f);
    }
    let (left, right) = producer.split();
    match right {
        Some(right) => {
            let run_left = || -> (r: Vec<Option<Entry<K, V>>>)
                ensures
                    rewritten(*f, left.slots(), r@, 0, left.slots().len() as int),
                {
                    bridge_mut(left, splits / 2, f)
                };
            let run_right = || -> (r: Vec<Option<Entry<K, V>>>)
                ensures
                    rewritten(*f, right.slots(), r@, 0, right.slots().len() as int),
                {
                    bridge_mut(right, splits / 2, f)
                };
            let (mut a, mut b) = rayon::join(run_left, run_right);
            proof {
                let s = producer.slots();
                let t = a@ + b@;
                let mid = a@.len() as int;
                assert forall|i: int| 0 <= i < s.len() implies if s[i] is Some {
                    &&& (#[trigger] t[i]) is Some
                    &&& t[i]->0.hash == s[i]->0.hash
                    &&& t[i]->0.key == s[i]->0.key
                    &&& call_ensures(*f, (&s[i]->0.key, s[i]->0.value), t[i]->0.value)
                } else {
                    t[i] == s[i]
                } by {
                    if i < mid {
                        assert(left.slots()[i] == s[i]);
                        assert(t[i] == a@[i]);
                    } else {
                        assert(right.slots()[i - mid] == s[i]);
                        assert(t[i] == b@[i - mid]);
                    }
                }
            }
            a.append(&mut b);
            a
        },
        None => left.fold_with(f),
    }
}

impl<'a, K: Send, V: Send> ParIterMut<'a, K, V> {
    /// Replaces, in parallel, the value of every occupied bucket by what `f` makes
    /// of its key and its old value. Keys, hashes and empty buckets stay as they
    /// are, and so does the counter.
    pub fn for_each<F: Fn(&K, V) -> V + Sync>(self, f: F)
        requires
            forall|k: &K, v: V| call_requires(f, (k, v)),
        ensures
            rewritten(
                f,
                old(self.table)@,
                final(self.table)@,
                0,
                old(self.table)@.len() as int,
            ),
            final(self.table).spec_size() == old(self.table).spec_size(),
    {
        let slots = self.table.take_buckets();
        let producer = ParIterMutProducer::from(slots);
        let slots = bridge_mut(producer, rayon::current_num_threads(), &f);
        self.table.put_buckets(slots);
    }
}

impl<K: Send, V: Send> RawTable<K, V> {
    /// A parallel traversal of the table that may rewrite the values.
    pub fn par_iter_mut(&mut self) -> (r: ParIterMut<'_, K, V>)
        ensures
            *r.table == *old(self),
            *final(self) == *final(r.table),
    {
        ParIterMut { table: self }
    }
}

/// Parallel iterator over mutable references to values in a map.
pub struct ParValuesMut<'a, K, V> {
    pub table: &'a mut RawTable<K, V>,
}

/// The buckets `t` are the buckets `s` with the value of every occupied bucket
/// replaced by what `f` made of the old value; nothing else differs.
pub open spec fn values_rewritten<K, V, F: Fn(V) -> V>(
    f: F,
    s: Seq<Option<Entry<K, V>>>,
    t: Seq<Option<Entry<K, V>>>,
) -> bool {
    &&& t.len() == s.len()
    &&& forall|i: int|
        0 <= i < s.len() ==> if s[i] is Some {
            &&& (#[trigger] t[i]) is Some
            &&& t[i]->0.hash == s[i]->0.hash
            &&& t[i]->0.key == s[i]->0.key
            &&& call_ensures(f, (s[i]->0.value,), t[i]->0.value)
        } else {
            t[i] == s[i]
        }
}

impl<'a, K: Send, V: Send> ParValuesMut<'a, K, V> {
    /// Replaces, in parallel, the value of every occupied bucket by what `f` makes
    /// of the old value. Keys, hashes and empty buckets stay as they are, and so
    /// does the counter.
    pub fn for_each<F: Fn(V) -> V + Sync>(self, f: F)
        requires
            forall|v: V| call_requires(f, (v,)),
        ensures
            values_rewritten(f, old(self.table)@, final(self.table)@),
            final(self.table).spec_size() == old(self.table).spec_size(),
    {
        let slots = self.table.take_buckets();
        let producer = ParIterMutProducer::from(slots);
        let on_value = &f;
        let on_pair = |k: &K, v: V| -> (r: V)
            ensures
                call_ensures(*on_value, (v,), r),
            {
                on_value(v)
            };
        let slots = bridge_mut(producer, rayon::current_num_threads(), &on_pair);
        self.table.put_buckets(slots);
    }
}

impl<K: Send, V: Send> RawTable<K, V> {
    /// A parallel traversal of the table that may rewrite the values.
    pub fn par_values_mut(&mut self) -> (r: ParValuesMut<'_, K, V>)
        ensures
            *r.table == *old(self),
            *final(self) == *final(r.table),
    {
        ParValuesMut { table: self }
    }
}

/// The indices that the leaves visit, leaf after leaf, when the range `lo..hi` is
/// cut at its midpoint wherever `cut` says so, again and again.
pub open spec fn leaf_indices(lo: int, hi: int, cut: spec_fn(int, int) -> bool) -> Seq<int>
    decreases hi - lo,
{
    if hi - lo > 1 && cut(lo, hi) {
        let mid = lo + (hi - lo) / 2;
        leaf_indices(lo, mid, cut) + leaf_indices(mid, hi, cut)
    } else {
        Seq::new((hi - lo) as nat, |i: int| lo + i)
    }
}

/// However often and wherever a range is cut, its leaves together visit each index
/// of the range once, none twice and none never: read leaf after leaf, the visited
/// indices are `lo`, `lo + 1`, and so on up to `hi`.
pub proof fn lemma_split_complete(lo: int, hi: int, cut: spec_fn(int, int) -> bool)
    requires
        lo <= hi,
    ensures
        leaf_indices(lo, hi, cut) == Seq::new((hi - lo) as nat, |i: int| lo + i),
    decreases hi - lo,
{
    if hi - lo > 1 && cut(lo, hi) {
        let mid = lo + (hi - lo) / 2;
        lemma_split_complete(lo, mid, cut);
        lemma_split_complete(mid, hi, cut);
        assert(Seq::new((mid - lo) as nat, |i: int| lo + i) + Seq::new(
            (hi - mid) as nat,
            |i: int| mid + i,
        ) =~= Seq::new((hi - lo) as nat, |i: int| lo + i));
    }
}

/// The occupied buckets in the order in which a parallel traversal of `lo..hi`
/// meets them, leaf after leaf, when the range is cut wherever `cut` says so.
pub open spec fn parallel_order<K, V>(
    s: Seq<Option<Entry<K, V>>>,
    lo: int,
    hi: int,
    cut: spec_fn(int, int) -> bool,
) -> Seq<int>
    decreases hi - lo,
{
    if hi - lo > 1 && cut(lo, hi) {
        let mid = lo + (hi - lo) / 2;
        parallel_order(s, lo, mid, cut) + parallel_order(s, mid, hi, cut)
    } else {
        occupied(s, lo, hi)
    }
}

/// A parallel traversal meets the occupied buckets that a sequential walk meets,
/// so the pairs, the keys and the values that it yields are, as multisets, those
/// of the sequential walk.
pub proof fn lemma_parallel_is_sequential<K, V>(
    s: Seq<Option<Entry<K, V>>>,
    lo: int,
    hi: int,
    cut: spec_fn(int, int) -> bool,
)
    requires
        lo <= hi,
    ensures
        parallel_order(s, lo, hi, cut) == occupied(s, lo, hi),
        parallel_order(s, lo, hi, cut).map_values(
            |i: int| (s[i]->0.key, s[i]->0.value),
        ).to_multiset() == pairs(s, lo, hi).to_multiset(),
        parallel_order(s, lo, hi, cut).map_values(|i: int| s[i]->0.key).to_multiset() == keys(
            s,
            lo,
            hi,
        ).to_multiset(),
        parallel_order(s, lo, hi, cut).map_values(|i: int| s[i]->0.value).to_multiset()
            == values(s, lo, hi).to_multiset(),
    decreases hi - lo,
{
    if hi - lo > 1 && cut(lo, hi) {
        let mid = lo + (hi - lo) / 2;
        lemma_parallel_is_sequential(s, lo, mid, cut);
        lemma_parallel_is_sequential(s, mid, hi, cut);
        lemma_occupied_split(s, lo, mid, hi);
    }
}

/// Mapping a concatenation maps both parts.
pub proof fn lemma_map_values_concat<A, B>(a: Seq<A>, b: Seq<A>, f: spec_fn(A) -> B)
    ensures
        (a + b).map_values(f) == a.map_values(f) + b.map_values(f),
{
    assert((a + b).map_values(f) =~= a.map_values(f) + b.map_values(f));
}

} // verus!
