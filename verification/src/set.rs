//! The hash set: a hash map whose values say nothing.
use crate::key::{DefaultState, HashStrategy, TableKey};
use crate::map::{distinct_keys, entries, lemma_distinct_keys, lemma_entries, HashMap};
use crate::table::{keys, lemma_occupied_members, occupied, Entry};
use vstd::prelude::*;

verus! {

/// A hash set with elements of type `T` and hashing strategy `S`.
#[derive(Clone, Debug)]
pub struct HashSet<T, S> {
    map: HashMap<T, (), S>,
}

impl<T: TableKey, S: HashStrategy> View for HashSet<T, S> {
    type V = Set<T>;

    closed spec fn view(&self) -> Set<T> {
        self.map@.dom()
    }
}

/// The set of the elements of a list.
pub open spec fn gathered<T>(items: Seq<T>) -> Set<T>
    decreases items.len(),
{
    if items.len() == 0 {
        Set::empty()
    } else {
        gathered(items.drop_last()).insert(items.last())
    }
}

/// The set of the elements of a list holds what the list holds.
pub proof fn lemma_gathered<T>(items: Seq<T>)
    ensures
        forall|x: T| #[trigger] gathered(items).contains(x) <==> items.contains(x),
        gathered(items).finite(),
        gathered(items).len() <= items.len(),
    decreases items.len(),
{
    if items.len() > 0 {
        let prev = items.drop_last();
        lemma_gathered(prev);
        assert forall|x: T| #[trigger] gathered(items).contains(x) <==> items.contains(x) by {
            if items.contains(x) {
                let i = choose|i: int| 0 <= i < items.len() && items[i] == x;
                if i < prev.len() {
                    assert(prev[i] == x);
                }
            }
            if prev.contains(x) {
                let i = choose|i: int| 0 <= i < prev.len() && prev[i] == x;
                assert(items[i] == x);
            }
            assert(items[items.len() - 1] == items.last());
        }
    }
}

/// The keys of the buckets are the keys of the map that the buckets hold, each
/// listed once.
pub proof fn lemma_keys_listed<K, V>(g: Seq<Option<Entry<K, V>>>)
    requires
        distinct_keys(g),
    ensures
        keys(g, 0, g.len() as int).no_duplicates(),
        forall|k: K| #[trigger] keys(g, 0, g.len() as int).contains(k) <==> entries(g).contains_key(k),
{
    let n = g.len() as int;
    let all = keys(g, 0, n);
    let occ = occupied(g, 0, n);
    lemma_entries(g, n);
    lemma_occupied_members(g, 0, n);
    assert forall|i: int, j: int| 0 <= i < all.len() && 0 <= j < all.len() && i != j implies all[i]
        != all[j] by {
        assert(g[occ[i]] is Some && g[occ[j]] is Some);
        if i < j {
            assert(occ[i] < occ[j]);
        } else {
            assert(occ[j] < occ[i]);
        }
    }
    assert forall|k: K| #[trigger] all.contains(k) <==> entries(g).contains_key(k) by {
        if all.contains(k) {
            let i = choose|i: int| 0 <= i < all.len() && all[i] == k;
            assert(g[occ[i]] is Some);
        }
        if entries(g).contains_key(k) {
            let p = choose|p: int| 0 <= p < n && (#[trigger] g[p]) is Some && g[p]->0.key == k;
            assert(occ.contains(p));
            let i = choose|i: int| 0 <= i < occ.len() && occ[i] == p;
            assert(all[i] == k);
        }
    }
}

impl<T: TableKey + Send + Sync, S: HashStrategy + Sync> HashSet<T, S> {
    /// The buckets of the set.
    pub closed spec fn slots(&self) -> Seq<Option<Entry<T, ()>>> {
        self.map.slots()
    }

    /// The set is in good order.
    pub closed spec fn wf(&self) -> bool {
        self.map.wf()
    }

    /// The view of the set is the set of the keys that its buckets hold, and its
    /// buckets hold no key twice.
    pub proof fn lemma_view(&self)
        requires
            self.wf(),
        ensures
            self@ == entries(self.slots()).dom(),
            distinct_keys(self.slots()),
            self@.finite(),
    {
        self.map.lemma_view();
        lemma_distinct_keys(self.map.slots(), self.map.strategy());
        lemma_entries(self.map.slots(), self.map.slots().len() as int);
    }

    /// An empty set with the given hashing strategy.
    pub fn with_hasher(hash_builder: S) -> (s: Self)
        ensures
            s.wf(),
            s@ == Set::<T>::empty(),
    {
        HashSet { map: HashMap::with_hasher(hash_builder) }
    }

    /// An empty set with the given hashing strategy and with room for `capacity`
    /// elements.
    pub fn with_capacity_and_hasher(capacity: usize, hash_builder: S) -> (s: Self)
        requires
            capacity <= usize::MAX / 8,
        ensures
            s.wf(),
            s@ == Set::<T>::empty(),
    {
        HashSet { map: HashMap::with_capacity_and_hasher(capacity, hash_builder) }
    }

    /// An empty set with the strategy that a new table starts with.
    pub fn default() -> (s: Self)
        ensures
            s.wf(),
            s@ == Set::<T>::empty(),
    {
        HashSet { map: HashMap::default() }
    }

    /// The map behind the set, for reading.
    pub fn map(&self) -> (m: &HashMap<T, (), S>)
        ensures
            m.slots() == self.slots(),
            m.wf() == self.wf(),
            m@.dom() == self@,
    {
        &self.map
    }

    /// Gives up the set for the map behind it.
    pub fn into_map(self) -> (m: HashMap<T, (), S>)
        ensures
            m.slots() == self.slots(),
            m.wf() == self.wf(),
            m@.dom() == self@,
    {
        self.map
    }

    /// The elements of the set, met by walking the buckets one after the other.
    pub fn iter(&self) -> (r: Vec<&T>)
        ensures
            crate::par::table::items_of_refs(r@) == keys(self.slots(), 0, self.slots().len() as int),
    {
        self.map.keys()
    }

    /// The number of elements.
    pub fn len(&self) -> (n: usize)
        requires
            self.wf(),
        ensures
            n == self@.len(),
            self@.finite(),
    {
        self.map.len()
    }

    /// Whether the set has no element.
    pub fn is_empty(&self) -> (b: bool)
        requires
            self.wf(),
        ensures
            b == (self@.len() == 0),
    {
        self.map.len() == 0
    }

    /// Whether the set has the element.
    pub fn contains(&self, value: &T) -> (b: bool)
        requires
            self.wf(),
        ensures
            b == self@.contains(*value),
    {
        self.map.contains_key(value)
    }

    /// Adds an element. Says whether the set did not have it before.
    pub fn insert(&mut self, value: T) -> (fresh: bool)
        requires
            old(self).wf(),
            old(self)@.len() < usize::MAX / 8,
        ensures
            final(self).wf(),
            final(self)@ == old(self)@.insert(value),
            fresh == !old(self)@.contains(value),
    {
        let before = self.map.insert(value, ());
        proof {
            assert(old(self).map@.insert(value, ()).dom() =~= old(self).map@.dom().insert(value));
        }
        before.is_none()
    }

    /// Takes an element out. Says whether the set had it.
    pub fn remove(&mut self, value: &T) -> (had: bool)
        requires
            old(self).wf(),
        ensures
            final(self).wf(),
            final(self)@ == old(self)@.remove(*value),
            had == old(self)@.contains(*value),
    {
        let before = self.map.remove(value);
        proof {
            assert(old(self).map@.remove(*value).dom() =~= old(self).map@.dom().remove(*value));
        }
        before.is_some()
    }

    /// Whether every element of the set is an element of `other`.
    pub fn is_subset(&self, other: &Self) -> (b: bool)
        requires
            self.wf(),
            other.wf(),
        ensures
            b == self@.subset_of(other@),
    {
        let table = self.map.table();
        let buckets = table.buckets();
        let mut range = crate::par::table::SplitBuckets::new(buckets);
        proof {
            self.lemma_view();
            lemma_entries(self.slots(), self.slots().len() as int);
        }
        loop
            invariant
                range.wf(),
                range.end() == buckets@.len(),
                buckets@ == self.slots(),
                self.wf(),
                other.wf(),
                self@ == entries(self.slots()).dom(),
                distinct_keys(self.slots()),
                forall|i: int|
                    0 <= i < range.start() && (#[trigger] buckets@[i]) is Some ==> other@.contains(
                        buckets@[i]->0.key,
                    ),
            ensures
                forall|i: int|
                    0 <= i < buckets@.len() && (#[trigger] buckets@[i]) is Some ==> other@.contains(
                        buckets@[i]->0.key,
                    ),
            decreases range.end() - range.start(),
        {
            match range.next(buckets) {
                Some(bucket) => {
                    let pair = bucket.pair(buckets);
                    if !other.contains(pair.0) {
                        proof {
                            lemma_entries(self.slots(), self.slots().len() as int);
                            assert(buckets@[bucket.spec_index() as int] is Some);
                            assert(self@.contains(*pair.0));
                        }
                        return false;
                    }
                },
                None => {
                    break ;
                },
            }
        }
        proof {
            lemma_entries(self.slots(), self.slots().len() as int);
            assert forall|k: T| self@.contains(k) implies other@.contains(k) by {
                let p = choose|p: int|
                    0 <= p < buckets@.len() && (#[trigger] buckets@[p]) is Some && buckets@[p]->0.key
                        == k;
                assert(buckets@[p] is Some);
            }
        }
        true
    }
}

impl<T: TableKey + Send + Sync> HashSet<T, DefaultState> {
    /// An empty set.
    pub fn new() -> (s: Self)
        ensures
            s.wf(),
            s@ == Set::<T>::empty(),
    {
        HashSet { map: HashMap::new() }
    }
}

} // verus!
