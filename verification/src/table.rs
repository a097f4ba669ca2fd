//! The bucket array of the hash table: entries, cursors and the table itself.
use vstd::prelude::*;

verus! {

/// What an occupied bucket holds: the key's hash, the key and the value.
#[derive(Clone, Debug)]
pub struct Entry<K, V> {
    pub hash: u64,
    pub key: K,
    pub value: V,
}

/// Indices of the occupied buckets among `lo..hi`, in ascending order.
pub open spec fn occupied<K, V>(s: Seq<Option<Entry<K, V>>>, lo: int, hi: int) -> Seq<int>
    decreases hi - lo,
{
    if lo >= hi {
        Seq::empty()
    } else if s[hi - 1] is Some {
        occupied(s, lo, hi - 1).push(hi - 1)
    } else {
        occupied(s, lo, hi - 1)
    }
}

/// The key/value pairs of the occupied buckets among `lo..hi`, by ascending index.
pub open spec fn pairs<K, V>(s: Seq<Option<Entry<K, V>>>, lo: int, hi: int) -> Seq<(K, V)> {
    occupied(s, lo, hi).map_values(|i: int| (s[i]->0.key, s[i]->0.value))
}

/// The keys of the occupied buckets among `lo..hi`, by ascending index.
pub open spec fn keys<K, V>(s: Seq<Option<Entry<K, V>>>, lo: int, hi: int) -> Seq<K> {
    occupied(s, lo, hi).map_values(|i: int| s[i]->0.key)
}

/// The values of the occupied buckets among `lo..hi`, by ascending index.
pub open spec fn values<K, V>(s: Seq<Option<Entry<K, V>>>, lo: int, hi: int) -> Seq<V> {
    occupied(s, lo, hi).map_values(|i: int| s[i]->0.value)
}

/// True when every bucket among `lo..hi` is empty.
pub open spec fn all_empty<K, V>(s: Seq<Option<Entry<K, V>>>, lo: int, hi: int) -> bool {
    forall|i: int| lo <= i < hi ==> (#[trigger] s[i]) is None
}

/// The occupied indices of a range are those of its two halves, one after the other.
pub proof fn lemma_occupied_split<K, V>(s: Seq<Option<Entry<K, V>>>, lo: int, mid: int, hi: int)
    requires
        lo <= mid <= hi,
    ensures
        occupied(s, lo, hi) == occupied(s, lo, mid) + occupied(s, mid, hi),
    decreases hi - mid,
{
    if mid == hi {
        assert(occupied(s, mid, hi) == Seq::<int>::empty());
        assert(occupied(s, lo, mid) + Seq::<int>::empty() == occupied(s, lo, mid));
    } else {
        lemma_occupied_split(s, lo, mid, hi - 1);
        if s[hi - 1] is Some {
            assert((occupied(s, lo, mid) + occupied(s, mid, hi - 1)).push(hi - 1) == occupied(
                s,
                lo,
                mid,
            ) + occupied(s, mid, hi - 1).push(hi - 1));
        }
    }
}

/// An index is listed exactly when it lies in the range and its bucket is occupied,
/// and the listing is strictly ascending.
pub proof fn lemma_occupied_members<K, V>(s: Seq<Option<Entry<K, V>>>, lo: int, hi: int)
    ensures
        forall|k: int|
            0 <= k < occupied(s, lo, hi).len() ==> lo <= (#[trigger] occupied(s, lo, hi)[k]) < hi
                && s[occupied(s, lo, hi)[k]] is Some,
        forall|i: int| lo <= i < hi && (#[trigger] s[i]) is Some ==> occupied(s, lo, hi).contains(i),
        forall|a: int, b: int|
            0 <= a < b < occupied(s, lo, hi).len() ==> occupied(s, lo, hi)[a] < occupied(
                s,
                lo,
                hi,
            )[b],
        occupied(s, lo, hi).len() <= if hi >= lo { hi - lo } else { 0 },
    decreases hi - lo,
{
    if lo < hi {
        lemma_occupied_members(s, lo, hi - 1);
        let prev = occupied(s, lo, hi - 1);
        if s[hi - 1] is Some {
            let cur = prev.push(hi - 1);
            assert(cur[prev.len() as int] == hi - 1);
            assert forall|i: int| lo <= i < hi && (#[trigger] s[i]) is Some implies cur.contains(
                i,
            ) by {
                if i < hi - 1 {
                    let k = choose|k: int| 0 <= k < prev.len() && prev[k] == i;
                    assert(cur[k] == i);
                }
            }
        }
    }
}

/// A range whose buckets are all empty lists nothing.
pub proof fn lemma_occupied_none<K, V>(s: Seq<Option<Entry<K, V>>>, lo: int, hi: int)
    requires
        all_empty(s, lo, hi),
    ensures
        occupied(s, lo, hi) == Seq::<int>::empty(),
    decreases hi - lo,
{
    if lo < hi {
        lemma_occupied_none(s, lo, hi - 1);
    }
}

/// The listing of a range depends only on the buckets inside the range.
pub proof fn lemma_occupied_local<K, V>(
    s: Seq<Option<Entry<K, V>>>,
    t: Seq<Option<Entry<K, V>>>,
    lo: int,
    hi: int,
    shift: int,
)
    requires
        forall|i: int| lo <= i < hi ==> (#[trigger] s[i] is Some) == (t[i + shift] is Some),
    ensures
        occupied(t, lo + shift, hi + shift) == occupied(s, lo, hi).map_values(|i: int| i + shift),
    decreases hi - lo,
{
    if lo < hi {
        lemma_occupied_local(s, t, lo, hi - 1, shift);
        assert(s[hi - 1] is Some == t[hi - 1 + shift] is Some);
        if s[hi - 1] is Some {
            assert(occupied(s, lo, hi - 1).push(hi - 1).map_values(|i: int| i + shift)
                == occupied(s, lo, hi - 1).map_values(|i: int| i + shift).push(hi - 1 + shift));
        }
    } else {
        assert(occupied(s, lo, hi).map_values(|i: int| i + shift) == Seq::<int>::empty());
    }
}

/// Passing over empty buckets and then meeting an occupied one adds that one index.
pub proof fn lemma_occupied_step<K, V>(s: Seq<Option<Entry<K, V>>>, lo: int, cur: int, at: int)
    requires
        lo <= cur <= at,
        all_empty(s, cur, at),
        s[at] is Some,
    ensures
        occupied(s, lo, at + 1) == occupied(s, lo, cur).push(at),
{
    lemma_occupied_split(s, lo, cur, at);
    lemma_occupied_none(s, cur, at);
    assert(occupied(s, lo, cur) + Seq::<int>::empty() == occupied(s, lo, cur));
}

/// Passing over empty buckets up to the end adds nothing.
pub proof fn lemma_occupied_tail<K, V>(s: Seq<Option<Entry<K, V>>>, lo: int, cur: int, hi: int)
    requires
        lo <= cur <= hi,
        all_empty(s, cur, hi),
    ensures
        occupied(s, lo, hi) == occupied(s, lo, cur),
{
    lemma_occupied_split(s, lo, cur, hi);
    lemma_occupied_none(s, cur, hi);
    assert(occupied(s, lo, cur) + Seq::<int>::empty() == occupied(s, lo, cur));
}

/// The pairs of a range depend only on the buckets inside the range.
pub proof fn lemma_pairs_local<K, V>(
    s: Seq<Option<Entry<K, V>>>,
    t: Seq<Option<Entry<K, V>>>,
    lo: int,
    hi: int,
    shift: int,
)
    requires
        forall|i: int| lo <= i < hi ==> #[trigger] s[i] == t[i + shift],
    ensures
        pairs(t, lo + shift, hi + shift) == pairs(s, lo, hi),
        keys(t, lo + shift, hi + shift) == keys(s, lo, hi),
        values(t, lo + shift, hi + shift) == values(s, lo, hi),
{
    assert forall|i: int| lo <= i < hi implies (#[trigger] s[i] is Some) == (t[i + shift]
        is Some) by {
        assert(s[i] == t[i + shift]);
    }
    lemma_occupied_local(s, t, lo, hi, shift);
    lemma_occupied_members(s, lo, hi);
    let os = occupied(s, lo, hi);
    let ot = occupied(t, lo + shift, hi + shift);
    assert forall|k: int| 0 <= k < os.len() implies s[os[k]] == t[#[trigger] ot[k]] by {
        assert(ot[k] == os[k] + shift);
        assert(s[os[k]] == t[os[k] + shift]);
    }
    assert(pairs(t, lo + shift, hi + shift) =~= pairs(s, lo, hi));
    assert(keys(t, lo + shift, hi + shift) =~= keys(s, lo, hi));
    assert(values(t, lo + shift, hi + shift) =~= values(s, lo, hi));
}

/// Past empty buckets, the first occupied bucket gives the first pair of the range.
pub proof fn lemma_pairs_head<K, V>(s: Seq<Option<Entry<K, V>>>, lo: int, at: int, hi: int)
    requires
        lo <= at < hi,
        all_empty(s, lo, at),
        s[at] is Some,
    ensures
        pairs(s, lo, hi) == seq![(s[at]->0.key, s[at]->0.value)] + pairs(s, at + 1, hi),
        occupied(s, lo, hi) == seq![at] + occupied(s, at + 1, hi),
{
    lemma_occupied_split(s, lo, at + 1, hi);
    lemma_occupied_step(s, lo, lo, at);
    assert(occupied(s, lo, at + 1) == seq![at]);
    assert(pairs(s, lo, hi) =~= seq![(s[at]->0.key, s[at]->0.value)] + pairs(s, at + 1, hi));
}

/// A position in a bucket array.
#[derive(Clone, Copy)]
pub struct RawBucket {
    idx: usize,
}

impl RawBucket {
    /// The index the cursor stands at.
    pub closed spec fn spec_index(&self) -> usize {
        self.idx
    }

    /// A cursor at `index`.
    pub fn at(index: usize) -> (b: RawBucket)
        ensures
            b.spec_index() == index,
    {
        RawBucket { idx: index }
    }

    /// The index the cursor stands at.
    #[verifier::when_used_as_spec(spec_index)]
    pub fn index(&self) -> (i: usize)
        ensures
            i == self.spec_index(),
    {
        self.idx
    }

    /// Moves the cursor `offset` buckets forward.
    pub fn index_add(&mut self, offset: usize)
        requires
            old(self).spec_index() + offset <= usize::MAX,
        ensures
            final(self).spec_index() == old(self).spec_index() + offset,
    {
        self.idx = self.idx + offset;
    }

    /// Whether the bucket under the cursor is empty.
    pub fn is_empty<K, V>(&self, buckets: &Vec<Option<Entry<K, V>>>) -> (b: bool)
        requires
            self.spec_index() < buckets.len(),
        ensures
            b == (buckets@[self.spec_index() as int] is None),
    {
        buckets[self.idx].is_none()
    }

    /// The key and the value in the occupied bucket under the cursor.
    pub fn pair<'a, K, V>(&self, buckets: &'a Vec<Option<Entry<K, V>>>) -> (p: (&'a K, &'a V))
        requires
            self.spec_index() < buckets.len(),
            buckets@[self.spec_index() as int] is Some,
        ensures
            *p.0 == buckets@[self.spec_index() as int]->0.key,
            *p.1 == buckets@[self.spec_index() as int]->0.value,
    {
        let entry = buckets[self.idx].as_ref().unwrap();
        (&entry.key, &entry.value)
    }

    /// Empties the bucket under the cursor and hands out what it held.
    pub fn take<K, V>(&self, buckets: &mut Vec<Option<Entry<K, V>>>) -> (e: Option<Entry<K, V>>)
        requires
            self.spec_index() < old(buckets).len(),
        ensures
            e == old(buckets)@[self.spec_index() as int],
            final(buckets)@ == old(buckets)@.update(self.spec_index() as int, None),
    {
        buckets[self.idx].take()
    }

    /// Empties the bucket under the cursor, dropping what it held.
    pub fn set_empty<K, V>(&self, buckets: &mut Vec<Option<Entry<K, V>>>)
        requires
            self.spec_index() < old(buckets).len(),
        ensures
            final(buckets)@ == old(buckets)@.update(self.spec_index() as int, None),
    {
        buckets[self.idx] = None;
    }
}

/// The bucket array of a hash table together with its occupancy counter.
#[derive(Clone, Debug)]
pub struct RawTable<K, V> {
    buckets: Vec<Option<Entry<K, V>>>,
    size: usize,
}

impl<K, V> View for RawTable<K, V> {
    type V = Seq<Option<Entry<K, V>>>;

    closed spec fn view(&self) -> Seq<Option<Entry<K, V>>> {
        self.buckets@
    }
}

impl<K, V> RawTable<K, V> {
    /// The value of the occupancy counter.
    pub closed spec fn spec_size(&self) -> usize {
        self.size
    }

    /// The counter agrees with the number of occupied buckets.
    pub open spec fn counted(&self) -> bool {
        self.spec_size() == occupied(self@, 0, self@.len() as int).len()
    }

    /// A table of `capacity` empty buckets.
    pub fn new(capacity: usize) -> (t: RawTable<K, V>)
        ensures
            t@.len() == capacity,
            all_empty(t@, 0, capacity as int),
            t.spec_size() == 0,
            t.counted(),
    {
        let mut buckets: Vec<Option<Entry<K, V>>> = Vec::new();
        let mut i: usize = 0;
        while i < capacity
            invariant
                i <= capacity,
                buckets@.len() == i,
                all_empty(buckets@, 0, i as int),
            decreases capacity - i,
        {
            buckets.push(None);
            i += 1;
        }
        proof {
            lemma_occupied_none(buckets@, 0, capacity as int);
        }
        RawTable { buckets, size: 0 }
    }

    /// A table over the given buckets, with the counter set to `size`.
    pub fn from_buckets(buckets: Vec<Option<Entry<K, V>>>, size: usize) -> (t: RawTable<K, V>)
        ensures
            t@ == buckets@,
            t.spec_size() == size,
    {
        RawTable { buckets, size }
    }

    /// Gives up the table for its buckets.
    pub fn into_buckets(self) -> (b: Vec<Option<Entry<K, V>>>)
        ensures
            b@ == self@,
    {
        self.buckets
    }

    /// Takes the buckets out of the table, which is left without any.
    pub fn take_buckets(&mut self) -> (b: Vec<Option<Entry<K, V>>>)
        ensures
            b@ == old(self)@,
            final(self)@.len() == 0,
            final(self).spec_size() == old(self).spec_size(),
    {
        let mut buckets: Vec<Option<Entry<K, V>>> = Vec::new();
        core::mem::swap(&mut self.buckets, &mut buckets);
        buckets
    }

    /// Gives the table the buckets `buckets` in place of those it has.
    pub fn put_buckets(&mut self, buckets: Vec<Option<Entry<K, V>>>)
        ensures
            final(self)@ == buckets@,
            final(self).spec_size() == old(self).spec_size(),
    {
        self.buckets = buckets;
    }

    /// Puts `entry` into bucket `index` and hands out what the bucket held. The
    /// counter stays as it is.
    pub fn write(&mut self, index: usize, entry: Entry<K, V>) -> (before: Option<Entry<K, V>>)
        requires
            index < old(self)@.len(),
        ensures
            before == old(self)@[index as int],
            final(self)@ == old(self)@.update(index as int, Some(entry)),
            final(self).spec_size() == old(self).spec_size(),
    {
        let mut slot = Some(entry);
        core::mem::swap(&mut self.buckets[index], &mut slot);
        slot
    }

    /// Empties bucket `index` and hands out what it held. The counter stays as it
    /// is.
    pub fn clear(&mut self, index: usize) -> (before: Option<Entry<K, V>>)
        requires
            index < old(self)@.len(),
        ensures
            before == old(self)@[index as int],
            final(self)@ == old(self)@.update(index as int, None),
            final(self).spec_size() == old(self).spec_size(),
    {
        self.buckets[index].take()
    }

    /// The buckets, for reading.
    pub fn buckets(&self) -> (b: &Vec<Option<Entry<K, V>>>)
        ensures
            b@ == self@,
    {
        &self.buckets
    }

    /// The number of buckets.
    pub fn capacity(&self) -> (c: usize)
        ensures
            c == self@.len(),
    {
        self.buckets.len()
    }

    /// The value of the occupancy counter.
    pub fn size(&self) -> (n: usize)
        ensures
            n == self.spec_size(),
    {
        self.size
    }

    /// Overwrites the occupancy counter, whatever the buckets hold.
    pub fn set_size(&mut self, size: usize)
        ensures
            final(self)@ == old(self)@,
            final(self).spec_size() == size,
    {
        self.size = size;
    }

    /// A cursor at bucket `index`.
    pub fn raw_bucket_at(&self, index: usize) -> (b: RawBucket)
        ensures
            b.spec_index() == index,
    {
        RawBucket::at(index)
    }
}

} // verus!
