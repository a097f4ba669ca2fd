//! Parallel traversal, comparison and combination of hash sets.
use crate::key::{HashStrategy, TableKey};
use crate::map::entries;
use crate::par::table::{
    items_of_refs, lemma_map_values_concat, ParKeys, ParKeysProducer, SplitBuckets,
};
use crate::segment::flat;
use crate::set::{gathered, lemma_gathered, lemma_keys_listed, HashSet};
use crate::table::{keys, Entry};
use vstd::prelude::*;

verus! {

/// The elements of the list that are in `other`, if `keep` is set, or that are
/// not, if it is not; in the order of the list.
pub open spec fn kept<T>(items: Seq<T>, other: Set<T>, keep: bool) -> Seq<T>
    decreases items.len(),
{
    if items.len() == 0 {
        Seq::empty()
    } else if other.contains(items.last()) == keep {
        kept(items.drop_last(), other, keep).push(items.last())
    } else {
        kept(items.drop_last(), other, keep)
    }
}

/// Choosing from two lists joined is choosing from each and joining.
pub proof fn lemma_kept_concat<T>(a: Seq<T>, b: Seq<T>, other: Set<T>, keep: bool)
    ensures
        kept(a + b, other, keep) == kept(a, other, keep) + kept(b, other, keep),
    decreases b.len(),
{
    if b.len() == 0 {
        assert(a + b == a);
        assert(kept(a, other, keep) + Seq::<T>::empty() == kept(a, other, keep));
    } else {
        lemma_kept_concat(a, b.drop_last(), other, keep);
        assert((a + b).drop_last() == a + b.drop_last());
        assert((a + b).last() == b.last());
        if other.contains(b.last()) == keep {
            assert((kept(a, other, keep) + kept(b.drop_last(), other, keep)).push(b.last()) == kept(
                a,
                other,
                keep,
            ) + kept(b.drop_last(), other, keep).push(b.last()));
        }
    }
}

/// What is chosen from a list is in the list and is, or is not, in `other`, as
/// `keep` says; and nothing is chosen twice that the list does not hold twice.
pub proof fn lemma_kept<T>(items: Seq<T>, other: Set<T>, keep: bool)
    ensures
        forall|x: T|
            #[trigger] kept(items, other, keep).contains(x) <==> items.contains(x) && other.contains(
                x,
            ) == keep,
        items.no_duplicates() ==> kept(items, other, keep).no_duplicates(),
        kept(items, other, keep).len() <= items.len(),
    decreases items.len(),
{
    if items.len() > 0 {
        let prev = items.drop_last();
        let last = items.last();
        let kp = kept(prev, other, keep);
        let k = kept(items, other, keep);
        lemma_kept(prev, other, keep);
        assert forall|x: T| #[trigger] k.contains(x) <==> items.contains(x) && other.contains(x)
            == keep by {
            if k.contains(x) {
                let i = choose|i: int| 0 <= i < k.len() && k[i] == x;
                if i < kp.len() {
                    assert(kp[i] == x);
                    assert(kp.contains(x));
                    let j = choose|j: int| 0 <= j < prev.len() && prev[j] == x;
                    assert(items[j] == x);
                } else {
                    assert(items[items.len() - 1] == x);
                }
            }
            if items.contains(x) && other.contains(x) == keep {
                let j = choose|j: int| 0 <= j < items.len() && items[j] == x;
                if j < prev.len() {
                    assert(prev[j] == x);
                    assert(kp.contains(x));
                    let i = choose|i: int| 0 <= i < kp.len() && kp[i] == x;
                    assert(k[i] == x);
                } else {
                    assert(k[k.len() - 1] == x);
                }
            }
        }
        if items.no_duplicates() {
            assert(prev.no_duplicates());
            if other.contains(last) == keep {
                assert forall|i: int, j: int| 0 <= i < k.len() && 0 <= j < k.len() && i != j implies k[i]
                    != k[j] by {
                    if i == kp.len() {
                        assert(kp[j] == k[j]);
                        if k[j] == last {
                            assert(kp.contains(last));
                            let q = choose|q: int| 0 <= q < prev.len() && prev[q] == last;
                            assert(items[q] == items[items.len() - 1]);
                        }
                    } else if j == kp.len() {
                        assert(kp[i] == k[i]);
                        if k[i] == last {
                            assert(kp.contains(last));
                            let q = choose|q: int| 0 <= q < prev.len() && prev[q] == last;
                            assert(items[q] == items[items.len() - 1]);
                        }
                    } else {
                        assert(kp[i] == k[i] && kp[j] == k[j]);
                    }
                }
            }
        }
    }
}

/// Chooses from what the producer yields the keys that are, or are not, in `other`.
fn select_fold<'a, T, S>(
    producer: ParKeysProducer<'a, T, ()>,
    other: &HashSet<T, S>,
    keep: bool,
) -> (r: Vec<&'a T>)
    where
        T: TableKey + Send + Sync,
        S: HashStrategy + Sync,

    requires
        producer.wf(),
        other.wf(),
    ensures
        items_of_refs(r@) == kept(producer.items(), other@, keep),
{
    let mut remaining = producer;
    let mut out: Vec<&'a T> = Vec::new();
    let ghost all = producer.items();
    let ghost mut done: int = 0;
    proof {
        assert(all.skip(0) == all);
        assert(all.take(0) == Seq::<T>::empty());
        assert(items_of_refs(out@) == Seq::<T>::empty());
    }
    loop
        invariant
            remaining.wf(),
            other.wf(),
            all == producer.items(),
            0 <= done <= all.len(),
            remaining.items() == all.skip(done),
            items_of_refs(out@) == kept(all.take(done), other@, keep),
        ensures
            items_of_refs(out@) == kept(all, other@, keep),
        decreases remaining.range().end() - remaining.range().start(),
    {
        let ghost rest = remaining.items();
        let ghost before = out@;
        match remaining.next() {
            Some(key) => {
                proof {
                    assert(rest == seq![*key] + remaining.items());
                    assert(rest.len() > 0);
                    assert(all.skip(done)[0] == all[done]);
                    assert(all.skip(done + 1) == all.skip(done).skip(1));
                    assert((seq![*key] + remaining.items()).skip(1) == remaining.items());
                    assert(all.take(done + 1) == all.take(done).push(*key));
                    assert(all.take(done + 1).drop_last() == all.take(done));
                }
                if other.contains(key) == keep {
                    out.push(key);
                    proof {
                        assert(items_of_refs(out@) == items_of_refs(before).push(*key));
                    }
                }
                proof {
                    done = done + 1;
                }
            },
            None => {
                proof {
                    assert(all.skip(done).len() == 0);
                    assert(all.take(done) == all);
                }
                break ;
            },
        }
    }
    out
}

/// Chooses from what the producer yields the keys that are, or are not, in `other`.
/// The work is cut in two while `splits` lasts, the halves are gone through side by
/// side, and what they chose is joined in the order of the buckets.
pub fn select<'a, T, S>(
    producer: ParKeysProducer<'a, T, ()>,
    other: &HashSet<T, S>,
    keep: bool,
    splits: usize,
) -> (r: Vec<&'a T>)
    where
        T: TableKey + Send + Sync,
        S: HashStrategy + Sync,

    requires
        producer.wf(),
        other.wf(),
    ensures
        items_of_refs(r@) == kept(producer.items(), other@, keep),
    decreases producer.range().end() - producer.range().start(),
{
    if splits == 0 {
        return select_fold(producer, other, keep);
    }
    let (left, right) = producer.split();
    match right {
        Some(right) => {
            let run_left = || -> (r: Vec<&'a T>)
                ensures
                    items_of_refs(r@) == kept(left.items(), other@, keep),
                {
                    select(left, other, keep, splits / 2)
                };
            let run_right = || -> (r: Vec<&'a T>)
                ensures
                    items_of_refs(r@) == kept(right.items(), other@, keep),
                {
                    select(right, other, keep, splits / 2)
                };
            let (mut a, mut b) = rayon::join(run_left, run_right);
            proof {
                lemma_map_values_concat(a@, b@, |p: &'a T| *p);
                lemma_kept_concat(left.items(), right.items(), other@, keep);
            }
            a.append(&mut b);
            a
        },
        None => select_fold(left, other, keep),
    }
}

/// Whether every key that the producer yields is in `other`, if `want` is set, or
/// none is, if it is not.
fn all_in_fold<'a, T, S>(producer: ParKeysProducer<'a, T, ()>, other: &HashSet<T, S>, want: bool) -> (b:
    bool)
    where
        T: TableKey + Send + Sync,
        S: HashStrategy + Sync,

    requires
        producer.wf(),
        other.wf(),
    ensures
        b == forall|i: int|
            0 <= i < producer.items().len() ==> other@.contains(#[trigger] producer.items()[i])
                == want,
{
    let mut remaining = producer;
    let ghost all = producer.items();
    let ghost mut done: int = 0;
    proof {
        assert(all.skip(0) == all);
    }
    loop
        invariant
            remaining.wf(),
            other.wf(),
            all == producer.items(),
            0 <= done <= all.len(),
            remaining.items() == all.skip(done),
            forall|i: int| 0 <= i < done ==> other@.contains(#[trigger] all[i]) == want,
        ensures
            forall|i: int| 0 <= i < all.len() ==> other@.contains(#[trigger] all[i]) == want,
        decreases remaining.range().end() - remaining.range().start(),
    {
        let ghost rest = remaining.items();
        match remaining.next() {
            Some(key) => {
                proof {
                    assert(rest == seq![*key] + remaining.items());
                    assert(rest.len() > 0);
                    assert(all.skip(done)[0] == all[done]);
                    assert(all.skip(done + 1) == all.skip(done).skip(1));
                    assert((seq![*key] + remaining.items()).skip(1) == remaining.items());
                }
                if other.contains(key) != want {
                    proof {
                        assert(other@.contains(all[done]) != want);
                    }
                    return false;
                }
                proof {
                    done = done + 1;
                }
            },
            None => {
                proof {
                    assert(all.skip(done).len() == 0);
                }
                break ;
            },
        }
    }
    true
}

/// Whether every key that the producer yields is in `other`, if `want` is set, or
/// none is, if it is not. The work is cut in two while `splits` lasts, and the
/// halves are gone through side by side.
pub fn all_in<'a, T, S>(
    producer: ParKeysProducer<'a, T, ()>,
    other: &HashSet<T, S>,
    want: bool,
    splits: usize,
) -> (b: bool)
    where
        T: TableKey + Send + Sync,
        S: HashStrategy + Sync,

    requires
        producer.wf(),
        other.wf(),
    ensures
        b == forall|i: int|
            0 <= i < producer.items().len() ==> other@.contains(#[trigger] producer.items()[i])
                == want,
    decreases producer.range().end() - producer.range().start(),
{
    if splits == 0 {
        return all_in_fold(producer, other, want);
    }
    let ghost whole = producer.items();
    let (left, right) = producer.split();
    match right {
        Some(right) => {
            let ghost first = left.items();
            let ghost second = right.items();
            let run_left = || -> (b: bool)
                ensures
                    b == forall|i: int|
                        0 <= i < left.items().len() ==> other@.contains(#[trigger] left.items()[i])
                            == want,
                {
                    all_in(left, other, want, splits / 2)
                };
            let run_right = || -> (b: bool)
                ensures
                    b == forall|i: int|
                        0 <= i < right.items().len() ==> other@.contains(
                            #[trigger] right.items()[i],
                        ) == want,
                {
                    all_in(right, other, want, splits / 2)
                };
            let (a, b) = rayon::join(run_left, run_right);
            proof {
                if a && b {
                    assert forall|i: int| 0 <= i < whole.len() implies other@.contains(
                        #[trigger] whole[i],
                    ) == want by {
                        if i < first.len() {
                            assert(whole[i] == first[i]);
                        } else {
                            assert(whole[i] == second[i - first.len()]);
                        }
                    }
                } else if !a {
                    let i = choose|i: int|
                        0 <= i < first.len() && other@.contains(#[trigger] first[i]) != want;
                    assert(whole[i] == first[i]);
                } else {
                    let i = choose|i: int|
                        0 <= i < second.len() && other@.contains(#[trigger] second[i]) != want;
                    assert(whole[i + first.len()] == second[i]);
                }
            }
            a && b
        },
        None => all_in_fold(left, other, want),
    }
}

/// Parallel iterator over the elements of a set, consuming it.
pub struct ParIntoIter<T> {
    inner: crate::par::table::ParIntoIter<T, ()>,
}

/// Parallel iterator over shared references to the elements of a set.
pub struct ParIter<'a, T> {
    inner: ParKeys<'a, T, ()>,
}

impl<T: TableKey + Send + Sync> ParIntoIter<T> {
    /// The buckets the traversal will consume.
    pub closed spec fn buckets(&self) -> Seq<Option<Entry<T, ()>>> {
        self.inner.buckets()
    }

    /// Consumes the set in parallel and collects its elements, by ascending bucket
    /// index.
    pub fn drive_unindexed(self) -> (r: Vec<T>)
        ensures
            r@ == keys(self.buckets(), 0, self.buckets().len() as int),
    {
        let drained = self.inner.drive_unindexed();
        let ghost all = drained@;
        let mut out: Vec<T> = Vec::new();
        for pair in it: drained.into_iter()
            invariant
                it.seq() == all,
                out@.len() == it.index(),
                forall|i: int| 0 <= i < it.index() ==> #[trigger] out@[i] == all[i].0,
        {
            let (key, _) = pair;
            out.push(key);
        }
        proof {
            assert(out@ =~= keys(self.buckets(), 0, self.buckets().len() as int));
        }
        out
    }
}

impl<'a, T: TableKey + Send + Sync> ParIter<'a, T> {
    /// The buckets the traversal reads.
    pub closed spec fn buckets(&self) -> Seq<Option<Entry<T, ()>>> {
        self.inner.buckets()
    }

    /// Visits every element, in parallel, and collects them by ascending bucket
    /// index.
    pub fn drive_unindexed(self) -> (r: Vec<&'a T>)
        ensures
            items_of_refs(r@) == keys(self.buckets(), 0, self.buckets().len() as int),
    {
        self.inner.drive_unindexed()
    }
}

/// A parallel traversal of the elements of the first set that are not in the second.
pub struct ParDifference<'a, T, S> {
    a: &'a HashSet<T, S>,
    b: &'a HashSet<T, S>,
}

impl<'a, T: TableKey + Send + Sync, S: HashStrategy + Sync> ParDifference<'a, T, S> {
    /// The first set.
    pub closed spec fn left(&self) -> HashSet<T, S> {
        *self.a
    }

    /// The second set.
    pub closed spec fn right(&self) -> HashSet<T, S> {
        *self.b
    }

    /// Collects, in parallel, the elements of the first set that are not in the second.
    pub fn drive_unindexed(self) -> (r: Vec<&'a T>)
        requires
            self.left().wf(),
            self.right().wf(),
        ensures
            items_of_refs(r@) == kept(keys(self.left().slots(), 0, self.left().slots().len() as int), self.right()@, false),
    {
        let table = self.a.map().table();
        let producer = ParKeysProducer::from(SplitBuckets::new(table.buckets()), table);
        select(producer, self.b, false, rayon::current_num_threads())
    }
}

/// A parallel traversal of the elements that are in one of the two sets and not in the other.
pub struct ParSymmetricDifference<'a, T, S> {
    a: &'a HashSet<T, S>,
    b: &'a HashSet<T, S>,
}

impl<'a, T: TableKey + Send + Sync, S: HashStrategy + Sync> ParSymmetricDifference<'a, T, S> {
    /// The first set.
    pub closed spec fn left(&self) -> HashSet<T, S> {
        *self.a
    }

    /// The second set.
    pub closed spec fn right(&self) -> HashSet<T, S> {
        *self.b
    }

    /// Collects, in parallel, the elements that are in one of the two sets and not in the other.
    pub fn drive_unindexed(self) -> (r: Vec<&'a T>)
        requires
            self.left().wf(),
            self.right().wf(),
        ensures
            items_of_refs(r@) == kept(keys(self.left().slots(), 0, self.left().slots().len() as int), self.right()@, false)
                + kept(keys(self.right().slots(), 0, self.right().slots().len() as int), self.left()@, false),
    {
        let a = self.a;
        let b = self.b;
        let first = a.par_difference(b);
        let second = b.par_difference(a);
        let run_first = || -> (r: Vec<&'a T>)
            ensures
                items_of_refs(r@) == kept(
                    keys(a.slots(), 0, a.slots().len() as int),
                    b@,
                    false,
                ),
            {
                first.drive_unindexed()
            };
        let run_second = || -> (r: Vec<&'a T>)
            ensures
                items_of_refs(r@) == kept(
                    keys(b.slots(), 0, b.slots().len() as int),
                    a@,
                    false,
                ),
            {
                second.drive_unindexed()
            };
        let (mut x, mut y) = rayon::join(run_first, run_second);
        proof {
            lemma_map_values_concat(x@, y@, |p: &'a T| *p);
        }
        x.append(&mut y);
        x
    }
}

/// A parallel traversal of the elements of the first set that are in the second as well.
pub struct ParIntersection<'a, T, S> {
    a: &'a HashSet<T, S>,
    b: &'a HashSet<T, S>,
}

impl<'a, T: TableKey + Send + Sync, S: HashStrategy + Sync> ParIntersection<'a, T, S> {
    /// The first set.
    pub closed spec fn left(&self) -> HashSet<T, S> {
        *self.a
    }

    /// The second set.
    pub closed spec fn right(&self) -> HashSet<T, S> {
        *self.b
    }

    /// Collects, in parallel, the elements of the first set that are in the second as well.
    pub fn drive_unindexed(self) -> (r: Vec<&'a T>)
        requires
            self.left().wf(),
            self.right().wf(),
        ensures
            items_of_refs(r@) == kept(keys(self.left().slots(), 0, self.left().slots().len() as int), self.right()@, true),
    {
        let table = self.a.map().table();
        let producer = ParKeysProducer::from(SplitBuckets::new(table.buckets()), table);
        select(producer, self.b, true, rayon::current_num_threads())
    }
}

/// A parallel traversal of the elements of the first set, followed by those of the second that are not in the first.
pub struct ParUnion<'a, T, S> {
    a: &'a HashSet<T, S>,
    b: &'a HashSet<T, S>,
}

impl<'a, T: TableKey + Send + Sync, S: HashStrategy + Sync> ParUnion<'a, T, S> {
    /// The first set.
    pub closed spec fn left(&self) -> HashSet<T, S> {
        *self.a
    }

    /// The second set.
    pub closed spec fn right(&self) -> HashSet<T, S> {
        *self.b
    }

    /// Collects, in parallel, the elements of the first set, followed by those of the second that are not in the first.
    pub fn drive_unindexed(self) -> (r: Vec<&'a T>)
        requires
            self.left().wf(),
            self.right().wf(),
        ensures
            items_of_refs(r@) == keys(self.left().slots(), 0, self.left().slots().len() as int) + kept(
                keys(self.right().slots(), 0, self.right().slots().len() as int),
                self.left()@,
                false,
            ),
    {
        let a = self.a;
        let b = self.b;
        let first = a.par_iter();
        let second = b.par_difference(a);
        let run_first = || -> (r: Vec<&'a T>)
            ensures
                items_of_refs(r@) == keys(a.slots(), 0, a.slots().len() as int),
            {
                first.drive_unindexed()
            };
        let run_second = || -> (r: Vec<&'a T>)
            ensures
                items_of_refs(r@) == kept(
                    keys(b.slots(), 0, b.slots().len() as int),
                    a@,
                    false,
                ),
            {
                second.drive_unindexed()
            };
        let (mut x, mut y) = rayon::join(run_first, run_second);
        proof {
            lemma_map_values_concat(x@, y@, |p: &'a T| *p);
        }
        x.append(&mut y);
        x
    }
}

impl<T: TableKey + Send + Sync, S: HashStrategy + Sync> HashSet<T, S> {
    /// A parallel traversal of the elements of the first set that are not in the second.
    pub fn par_difference<'a>(&'a self, other: &'a Self) -> (r: ParDifference<'a, T, S>)
        ensures
            r.left() == *self,
            r.right() == *other,
    {
        ParDifference { a: self, b: other }
    }

    /// A parallel traversal of the elements that are in one of the two sets and not in the other.
    pub fn par_symmetric_difference<'a>(&'a self, other: &'a Self) -> (r: ParSymmetricDifference<'a, T, S>)
        ensures
            r.left() == *self,
            r.right() == *other,
    {
        ParSymmetricDifference { a: self, b: other }
    }

    /// A parallel traversal of the elements of the first set that are in the second as well.
    pub fn par_intersection<'a>(&'a self, other: &'a Self) -> (r: ParIntersection<'a, T, S>)
        ensures
            r.left() == *self,
            r.right() == *other,
    {
        ParIntersection { a: self, b: other }
    }

    /// A parallel traversal of the elements of the first set, followed by those of the second that are not in the first.
    pub fn par_union<'a>(&'a self, other: &'a Self) -> (r: ParUnion<'a, T, S>)
        ensures
            r.left() == *self,
            r.right() == *other,
    {
        ParUnion { a: self, b: other }
    }

    /// A parallel traversal of the elements of the set.
    pub fn par_iter(&self) -> (r: ParIter<'_, T>)
        ensures
            r.buckets() == self.slots(),
    {
        ParIter { inner: self.map().par_keys() }
    }

    /// A parallel traversal that consumes the set.
    pub fn into_par_iter(self) -> (r: ParIntoIter<T>)
        ensures
            r.buckets() == self.slots(),
    {
        ParIntoIter { inner: self.into_map().into_par_iter() }
    }

    /// Whether the two sets have no element in common, found out in parallel.
    pub fn par_is_disjoint(&self, other: &Self) -> (b: bool)
        requires
            self.wf(),
            other.wf(),
        ensures
            b == self@.disjoint(other@),
    {
        let table = self.map().table();
        let producer = ParKeysProducer::from(SplitBuckets::new(table.buckets()), table);
        let ghost yielded = producer.items();
        let b = all_in(producer, other, false, rayon::current_num_threads());
        proof {
            self.lemma_view();
            lemma_keys_listed(self.slots());
            assert(yielded == keys(self.slots(), 0, self.slots().len() as int));
            if b {
                assert forall|x: T| !(self@.contains(x) && other@.contains(x)) by {
                    if self@.contains(x) {
                        assert(entries(self.slots()).contains_key(x));
                        assert(yielded.contains(x));
                        let i = choose|i: int| 0 <= i < yielded.len() && yielded[i] == x;
                        assert(other@.contains(yielded[i]) == false);
                    }
                }
            } else {
                let i = choose|i: int| 0 <= i < yielded.len() && other@.contains(#[trigger] yielded[i]) != false;
                assert(yielded.contains(yielded[i]));
                assert(self@.contains(yielded[i]));
            }
        }
        b
    }

    /// Whether every element of the set is an element of `other`, found out in
    /// parallel.
    pub fn par_is_subset(&self, other: &Self) -> (b: bool)
        requires
            self.wf(),
            other.wf(),
        ensures
            b == self@.subset_of(other@),
    {
        let table = self.map().table();
        let producer = ParKeysProducer::from(SplitBuckets::new(table.buckets()), table);
        let ghost yielded = producer.items();
        let b = all_in(producer, other, true, rayon::current_num_threads());
        proof {
            self.lemma_view();
            lemma_keys_listed(self.slots());
            assert(yielded == keys(self.slots(), 0, self.slots().len() as int));
            if b {
                assert forall|x: T| self@.contains(x) implies other@.contains(x) by {
                    assert(entries(self.slots()).contains_key(x));
                    assert(yielded.contains(x));
                    let i = choose|i: int| 0 <= i < yielded.len() && yielded[i] == x;
                    assert(other@.contains(yielded[i]) == true);
                }
            } else {
                let i = choose|i: int| 0 <= i < yielded.len() && other@.contains(#[trigger] yielded[i]) != true;
                assert(yielded.contains(yielded[i]));
                assert(self@.contains(yielded[i]));
            }
        }
        b
    }

    /// Whether every element of `other` is an element of the set.
    pub fn par_is_superset(&self, other: &Self) -> (b: bool)
        requires
            self.wf(),
            other.wf(),
        ensures
            b == other@.subset_of(self@),
    {
        other.is_subset(self)
    }

    /// Whether the two sets have the same elements, found out in parallel.
    pub fn par_eq(&self, other: &Self) -> (b: bool)
        requires
            self.wf(),
            other.wf(),
        ensures
            b == (self@ == other@),
    {
        let b = self.len() == other.len() && self.par_is_subset(other);
        proof {
            self.lemma_view();
            other.lemma_view();
            if b {
                vstd::set_lib::lemma_subset_equality(self@, other@);
            }
        }
        b
    }

    /// Collects the elements of the chunks into a set: room is made for all of
    /// them at once, and then they are inserted one after the other.
    pub fn from_par_iter(list: Vec<Vec<T>>) -> (set: Self)
        requires
            flat(list@).len() <= usize::MAX / 8,
        ensures
            set.wf(),
            set@ == gathered(flat(list@)),
    {
        let ghost chunks = list@;
        let mut len: usize = 0;
        let mut c: usize = 0;
        proof {
            assert(chunks.take(0) == Seq::<Vec<T>>::empty());
        }
        while c < list.len()
            invariant
                c <= list@.len(),
                chunks == list@,
                len == flat(chunks.take(c as int)).len(),
                flat(chunks).len() <= usize::MAX / 8,
            decreases list@.len() - c,
        {
            proof {
                assert(chunks.take(c as int + 1).drop_last() == chunks.take(c as int));
                assert(chunks == chunks.take(c as int + 1) + chunks.skip(c as int + 1));
                crate::segment::lemma_flat_concat(chunks.take(c as int + 1), chunks.skip(c as int + 1));
            }
            len = len + list[c].len();
            c += 1;
        }
        proof {
            assert(chunks.take(chunks.len() as int) == chunks);
        }
        let mut coll = HashSet::with_capacity_and_hasher(len, S::fresh());
        for chunk in outer: list.into_iter()
            invariant
                outer.seq() == chunks,
                coll.wf(),
                flat(chunks).len() <= usize::MAX / 8,
                coll@ == gathered(flat(chunks.take(outer.index() as int))),
        {
            let ghost done = flat(chunks.take(outer.index() as int));
            let ghost items = chunk@;
            proof {
                assert(chunks.take(outer.index() as int + 1).drop_last() == chunks.take(
                    outer.index() as int,
                ));
                assert(chunks == chunks.take(outer.index() as int + 1) + chunks.skip(
                    outer.index() as int + 1,
                ));
                crate::segment::lemma_flat_concat(
                    chunks.take(outer.index() as int + 1),
                    chunks.skip(outer.index() as int + 1),
                );
                assert(done + items.take(0) == done);
            }
            for value in inner: chunk.into_iter()
                invariant
                    inner.seq() == items,
                    coll.wf(),
                    done.len() + items.len() <= usize::MAX / 8,
                    coll@ == gathered(done + items.take(inner.index() as int)),
            {
                let ghost i = inner.index() as int;
                proof {
                    assert((done + items.take(i + 1)) == (done + items.take(i)).push(value));
                    assert((done + items.take(i + 1)).drop_last() == done + items.take(i));
                    lemma_gathered(done + items.take(i));
                }
                coll.insert(value);
            }
            proof {
                assert(items.take(items.len() as int) == items);
            }
        }
        proof {
            assert(chunks.take(chunks.len() as int) == chunks);
        }
        coll
    }
}

} // verus!
