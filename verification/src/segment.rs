//! Where a hash belongs in the bucket array, and insertion into one segment of it.
use crate::key::TableKey;
use crate::table::{
    lemma_occupied_local, lemma_occupied_members, lemma_occupied_split, occupied, Entry,
};
use vstd::arithmetic::div_mod::{
    lemma_div_denominator, lemma_fundamental_div_mod, lemma_mod_bound, lemma_multiply_divide_lt,
};
use vstd::arithmetic::power2::{
    lemma2_to64, lemma2_to64_rest, lemma_pow2_adds, lemma_pow2_pos, pow2,
};
use vstd::bits::lemma_u64_shr_is_div;
use vstd::prelude::*;

verus! {

/// The bits of a hash that decide where it belongs: all but the topmost.
pub const HASH_MASK: u64 = 0x7fff_ffff_ffff_ffff;

/// A bucket array of `2^bits` buckets can exist on this machine, and twice its
/// length still fits a `usize`.
pub open spec fn valid_bits(bits: u32) -> bool {
    bits <= 62 && 2 * pow2(bits as nat) <= usize::MAX + 1
}

/// The number of buckets of an array of `2^bits` buckets.
pub open spec fn capacity_of(bits: u32) -> int {
    pow2(bits as nat) as int
}

/// The bucket where a hash wants to be in an array of `2^bits` buckets: the number
/// made of its topmost `bits` bits below the sign bit.
pub open spec fn home(hash: u64, bits: u32) -> int {
    ((hash & HASH_MASK) as int) / (pow2((63 - bits) as nat) as int)
}

/// The first bucket of segment number `m` when `2^bits` buckets are cut into
/// `2^shard_bits` segments of equal length.
pub open spec fn segment_base(m: int, bits: u32, shard_bits: u32) -> int {
    m * capacity_of((bits - shard_bits) as u32)
}

/// An array shorter than one that can exist can exist.
pub proof fn lemma_valid_bits_smaller(bits: u32, smaller: u32)
    requires
        valid_bits(bits),
        smaller <= bits,
    ensures
        valid_bits(smaller),
        capacity_of(smaller) <= capacity_of(bits),
        capacity_of(smaller) >= 1,
{
    if smaller < bits {
        vstd::arithmetic::power2::lemma_pow2_strictly_increases(smaller as nat, bits as nat);
    }
    lemma_pow2_pos(smaller as nat);
}

/// The home of a hash lies inside the array.
pub proof fn lemma_home_bound(hash: u64, bits: u32)
    requires
        bits <= 62,
    ensures
        0 <= home(hash, bits) < capacity_of(bits),
        capacity_of(bits) >= 1,
{
    let x = (hash & HASH_MASK) as int;
    let a = pow2((63 - bits) as nat) as int;
    let c = pow2(bits as nat) as int;
    assert(hash & 0x7fff_ffff_ffff_ffffu64 < 0x8000_0000_0000_0000u64) by (bit_vector);
    lemma2_to64_rest();
    lemma_pow2_adds((63 - bits) as nat, bits as nat);
    lemma_pow2_pos((63 - bits) as nat);
    lemma_pow2_pos(bits as nat);
    assert(x < a * c);
    lemma_multiply_divide_lt(x, a, c);
    assert(x / a >= 0) by (nonlinear_arith)
        requires
            x >= 0,
            a > 0,
    ;
}

/// With `2^bits` buckets cut into `2^shard_bits` segments of equal length, the home
/// of a hash lies in the segment whose number is the hash's shard.
pub proof fn lemma_home_in_segment(hash: u64, bits: u32, shard_bits: u32)
    requires
        shard_bits <= bits <= 62,
    ensures
        segment_base(home(hash, shard_bits), bits, shard_bits) <= home(hash, bits)
            < segment_base(home(hash, shard_bits), bits, shard_bits) + capacity_of(
            (bits - shard_bits) as u32,
        ),
{
    let x = (hash & HASH_MASK) as int;
    let a = pow2((63 - bits) as nat) as int;
    let len = pow2((bits - shard_bits) as nat) as int;
    let c = pow2((63 - shard_bits) as nat) as int;
    lemma_pow2_adds((63 - bits) as nat, (bits - shard_bits) as nat);
    lemma_pow2_pos((63 - bits) as nat);
    lemma_pow2_pos((bits - shard_bits) as nat);
    assert(c == a * len);
    lemma_div_denominator(x, a, len);
    let y = x / a;
    assert(home(hash, shard_bits) == y / len);
    lemma_fundamental_div_mod(y, len);
    lemma_mod_bound(y, len);
    assert((y / len) * len == len * (y / len)) by (nonlinear_arith);
}

/// Segments follow one another without a gap, from bucket 0 to the last bucket.
pub proof fn lemma_segment_bases(m: int, bits: u32, shard_bits: u32)
    requires
        shard_bits <= bits <= 62,
        0 <= m < capacity_of(shard_bits),
    ensures
        segment_base(0, bits, shard_bits) == 0,
        segment_base(m, bits, shard_bits) >= 0,
        segment_base(m + 1, bits, shard_bits) == segment_base(m, bits, shard_bits) + capacity_of(
            (bits - shard_bits) as u32,
        ),
        segment_base(m + 1, bits, shard_bits) <= capacity_of(bits),
        segment_base(capacity_of(shard_bits), bits, shard_bits) == capacity_of(bits),
        capacity_of((bits - shard_bits) as u32) >= 1,
{
    let len = pow2((bits - shard_bits) as nat) as int;
    let n = pow2(shard_bits as nat) as int;
    lemma_pow2_adds(shard_bits as nat, (bits - shard_bits) as nat);
    lemma_pow2_pos((bits - shard_bits) as nat);
    assert(n * len == capacity_of(bits));
    assert((m + 1) * len == m * len + len && (m + 1) * len <= n * len && m * len >= 0) by (nonlinear_arith)
        requires
            0 <= m < n,
            len >= 1,
    ;
}

/// Computes the home of a hash.
pub fn home_index(hash: u64, bits: u32) -> (i: usize)
    requires
        valid_bits(bits),
    ensures
        i == home(hash, bits),
        i < capacity_of(bits),
{
    proof {
        lemma_home_bound(hash, bits);
        lemma_u64_shr_is_div(hash & HASH_MASK, (63 - bits) as u64);
        lemma_pow2_pos((63 - bits) as nat);
        lemma2_to64();
        lemma2_to64_rest();
    }
    ((hash & HASH_MASK) >> (63 - bits)) as usize
}

/// A pair on its way into the table: its hash, and how many buckets of its probe
/// path, counted from its home, have already been tried.
pub struct Displaced<K, V> {
    pub hash: u64,
    pub key: K,
    pub value: V,
    pub displacement: usize,
}

/// The bucket at which a pair with this hash and displacement goes on probing.
pub open spec fn start_of(hash: u64, displacement: int, bits: u32) -> int {
    let s = home(hash, bits) + displacement;
    if s >= capacity_of(bits) {
        s - capacity_of(bits)
    } else {
        s
    }
}

/// The entry has this hash and this key.
pub open spec fn entry_is<K, V>(e: Entry<K, V>, hash: u64, key: K) -> bool {
    e.hash == hash && e.key == key
}

/// The first bucket at or after `from` that is empty or holds this hash and key;
/// the number of buckets if there is none.
pub open spec fn stop<K, V>(s: Seq<Option<Entry<K, V>>>, from: int, hash: u64, key: K) -> int
    decreases s.len() - from,
{
    if from >= s.len() {
        s.len() as int
    } else if s[from] is None || entry_is(s[from]->0, hash, key) {
        from
    } else {
        stop(s, from + 1, hash, key)
    }
}

/// What `stop` finds: every bucket before it is occupied by another key, and the
/// bucket itself, if there is one, is empty or holds the key.
pub proof fn lemma_stop<K, V>(s: Seq<Option<Entry<K, V>>>, from: int, hash: u64, key: K)
    requires
        0 <= from <= s.len(),
    ensures
        from <= stop(s, from, hash, key) <= s.len(),
        forall|q: int|
            from <= q < stop(s, from, hash, key) ==> (#[trigger] s[q]) is Some && !entry_is(
                s[q]->0,
                hash,
                key,
            ),
        stop(s, from, hash, key) < s.len() ==> s[stop(s, from, hash, key)] is None || entry_is(
            s[stop(s, from, hash, key)]->0,
            hash,
            key,
        ),
    decreases s.len() - from,
{
    if from < s.len() && !(s[from] is None || entry_is(s[from]->0, hash, key)) {
        lemma_stop(s, from + 1, hash, key);
    }
}

/// The state of one segment of the bucket array during bulk insertion.
pub struct SegmentView<K, V> {
    /// The index, in the whole array, of the segment's first bucket.
    pub base: int,
    /// The whole array has `2^bits` buckets.
    pub bits: u32,
    /// The buckets of the segment.
    pub slots: Seq<Option<Entry<K, V>>>,
    /// How many empty buckets were filled since the count was last taken.
    pub inserted: nat,
    /// The pairs that ran off the end of the segment, in the order in which they did.
    pub overflow: Seq<Displaced<K, V>>,
}

/// The pair goes on probing at a bucket of this segment.
pub open spec fn fits<K, V>(v: SegmentView<K, V>, it: Displaced<K, V>) -> bool {
    &&& it.displacement < capacity_of(v.bits)
    &&& v.base <= start_of(it.hash, it.displacement as int, v.bits) < v.base + v.slots.len()
}

/// The segment after one pair was offered to it. The pair probes from its start
/// bucket to the end of the segment: it fills the first empty bucket, or replaces the
/// value under its own key, or runs off the end and is put down as overflow with its
/// displacement advanced by the buckets it passed.
pub open spec fn step<K, V>(v: SegmentView<K, V>, it: Displaced<K, V>) -> SegmentView<K, V> {
    let from = start_of(it.hash, it.displacement as int, v.bits) - v.base;
    let j = stop(v.slots, from, it.hash, it.key);
    let entry = Entry { hash: it.hash, key: it.key, value: it.value };
    if j >= v.slots.len() {
        SegmentView {
            overflow: v.overflow.push(
                Displaced {
                    hash: it.hash,
                    key: it.key,
                    value: it.value,
                    displacement: (it.displacement + v.slots.len() - from) as usize,
                },
            ),
            ..v
        }
    } else if v.slots[j] is None {
        SegmentView { slots: v.slots.update(j, Some(entry)), inserted: v.inserted + 1, ..v }
    } else {
        SegmentView { slots: v.slots.update(j, Some(entry)), ..v }
    }
}

/// The segment after the pairs were offered to it one after the other.
pub open spec fn run<K, V>(v: SegmentView<K, V>, items: Seq<Displaced<K, V>>) -> SegmentView<K, V>
    decreases items.len(),
{
    if items.len() == 0 {
        v
    } else {
        step(run(v, items.drop_last()), items.last())
    }
}

/// The pairs of a list of chunks, chunk after chunk.
pub open spec fn flat<T>(chunks: Seq<Vec<T>>) -> Seq<T>
    decreases chunks.len(),
{
    if chunks.len() == 0 {
        Seq::empty()
    } else {
        flat(chunks.drop_last()) + chunks.last()@
    }
}

/// Filling an empty bucket adds one to the number of occupied buckets; writing to
/// an occupied one leaves the number as it is.
pub proof fn lemma_count_update<K, V>(s: Seq<Option<Entry<K, V>>>, j: int, e: Entry<K, V>)
    requires
        0 <= j < s.len(),
    ensures
        occupied(s.update(j, Some(e)), 0, s.len() as int).len() == occupied(
            s,
            0,
            s.len() as int,
        ).len() + if s[j] is None {
            1int
        } else {
            0int
        },
{
    let t = s.update(j, Some(e));
    let n = s.len() as int;
    lemma_occupied_split(s, 0, j, n);
    lemma_occupied_split(t, 0, j, n);
    lemma_occupied_split(s, j, j + 1, n);
    lemma_occupied_split(t, j, j + 1, n);
    lemma_occupied_local(s, t, 0, j, 0);
    lemma_occupied_local(s, t, j + 1, n, 0);
    assert(occupied(s, j, j) == Seq::<int>::empty());
    assert(occupied(t, j, j) == Seq::<int>::empty());
}

/// Emptying an occupied bucket takes one from the number of occupied buckets;
/// emptying an empty one leaves the number as it is.
pub proof fn lemma_count_clear<K, V>(s: Seq<Option<Entry<K, V>>>, j: int)
    requires
        0 <= j < s.len(),
    ensures
        occupied(s.update(j, None), 0, s.len() as int).len() == occupied(s, 0, s.len() as int).len()
            - if s[j] is Some {
            1int
        } else {
            0int
        },
{
    let t = s.update(j, None);
    let n = s.len() as int;
    lemma_occupied_split(s, 0, j, n);
    lemma_occupied_split(t, 0, j, n);
    lemma_occupied_split(s, j, j + 1, n);
    lemma_occupied_split(t, j, j + 1, n);
    lemma_occupied_local(s, t, 0, j, 0);
    lemma_occupied_local(s, t, j + 1, n, 0);
    assert(occupied(s, j, j) == Seq::<int>::empty());
    assert(occupied(t, j, j) == Seq::<int>::empty());
}

/// One segment of the bucket array, owned by the worker that inserts into it.
pub struct ShardSegment<K, V> {
    base: usize,
    bits: u32,
    capacity: usize,
    slots: Vec<Option<Entry<K, V>>>,
    inserted: usize,
    overflow: Vec<Displaced<K, V>>,
}

impl<K, V> View for ShardSegment<K, V> {
    type V = SegmentView<K, V>;

    closed spec fn view(&self) -> SegmentView<K, V> {
        SegmentView {
            base: self.base as int,
            bits: self.bits,
            slots: self.slots@,
            inserted: self.inserted as nat,
            overflow: self.overflow@,
        }
    }
}

/// The segment lies inside an array that can exist, and has not counted more
/// insertions than it has occupied buckets.
pub open spec fn segment_wf<K, V>(v: SegmentView<K, V>) -> bool {
    &&& valid_bits(v.bits)
    &&& 0 <= v.base
    &&& v.base + v.slots.len() <= capacity_of(v.bits)
    &&& v.inserted <= occupied(v.slots, 0, v.slots.len() as int).len()
}

/// Offering a pair to a segment keeps the segment well formed, changes at most one
/// bucket, and puts down at most one pair as overflow.
pub proof fn lemma_step_wf<K, V>(v: SegmentView<K, V>, it: Displaced<K, V>)
    requires
        segment_wf(v),
        fits(v, it),
    ensures
        segment_wf(step(v, it)),
        step(v, it).base == v.base,
        step(v, it).bits == v.bits,
        step(v, it).slots.len() == v.slots.len(),
        occupied(step(v, it).slots, 0, v.slots.len() as int).len() - step(v, it).inserted
            == occupied(v.slots, 0, v.slots.len() as int).len() - v.inserted,
        step(v, it).inserted + step(v, it).overflow.len() <= v.inserted + v.overflow.len() + 1,
        step(v, it).overflow.len() >= v.overflow.len(),
        step(v, it).inserted >= v.inserted,
{
    let from = start_of(it.hash, it.displacement as int, v.bits) - v.base;
    lemma_stop(v.slots, from, it.hash, it.key);
    let j = stop(v.slots, from, it.hash, it.key);
    if j < v.slots.len() {
        lemma_count_update(v.slots, j, Entry { hash: it.hash, key: it.key, value: it.value });
    }
}

impl<K: TableKey, V> ShardSegment<K, V> {
    /// The segment remembers the length of the whole array.
    pub closed spec fn knows_capacity(&self) -> bool {
        self.capacity == capacity_of(self.bits)
    }

    /// The segment is well formed.
    pub open spec fn wf(&self) -> bool {
        segment_wf(self@) && self.knows_capacity()
    }

    /// A segment over the given buckets, which are buckets `base` and following of an
    /// array of `2^bits` buckets.
    pub fn new(base: usize, bits: u32, slots: Vec<Option<Entry<K, V>>>) -> (seg: Self)
        requires
            valid_bits(bits),
            base + slots@.len() <= capacity_of(bits),
        ensures
            seg.wf(),
            seg@ == (SegmentView {
                base: base as int,
                bits,
                slots: slots@,
                inserted: 0,
                overflow: Seq::empty(),
            }),
    {
        ShardSegment {
            base,
            bits,
            capacity: capacity(bits),
            slots,
            inserted: 0,
            overflow: Vec::new(),
        }
    }

    /// Gives up the segment for its buckets.
    pub fn into_slots(self) -> (slots: Vec<Option<Entry<K, V>>>)
        ensures
            slots@ == self@.slots,
    {
        self.slots
    }

    /// The first bucket at or after `from` that is empty or holds this hash and key.
    fn probe(&self, from: usize, hash: u64, key: &K) -> (j: usize)
        requires
            from <= self@.slots.len(),
        ensures
            j == stop(self@.slots, from as int, hash, *key),
            from <= j <= self@.slots.len(),
    {
        let mut j: usize = from;
        while j < self.slots.len()
            invariant
                from <= j <= self.slots@.len(),
                stop(self.slots@, from as int, hash, *key) == stop(self.slots@, j as int, hash, *key),
            decreases self.slots@.len() - j,
        {
            match &self.slots[j] {
                None => {
                    return j;
                },
                Some(entry) => {
                    if entry.hash == hash && entry.key.same(key) {
                        return j;
                    }
                },
            }
            j += 1;
        }
        j
    }

    /// Offers a pair to the segment. The pair probes from the bucket that its hash
    /// and `displacement` give to the end of the segment and never beyond it.
    pub fn insert(&mut self, hash: u64, key: K, value: V, displacement: usize)
        requires
            old(self).wf(),
            fits(old(self)@, Displaced { hash, key, value, displacement }),
        ensures
            final(self).wf(),
            final(self)@ == step(old(self)@, Displaced { hash, key, value, displacement }),
    {
        proof {
            lemma_step_wf(self@, Displaced { hash, key, value, displacement });
            lemma_home_bound(hash, self.bits);
            lemma_occupied_members(self.slots@, 0, self.slots@.len() as int);
        }
        let sum = home_index(hash, self.bits) + displacement;
        let start = if sum >= self.capacity {
            sum - self.capacity
        } else {
            sum
        };
        let from = start - self.base;
        let j = self.probe(from, hash, &key);
        if j >= self.slots.len() {
            let passed = self.slots.len() - from;
            self.overflow.push(Displaced { hash, key, value, displacement: displacement + passed });
        } else {
            let fresh = self.slots[j].is_none();
            self.slots[j] = Some(Entry { hash, key, value });
            if fresh {
                self.inserted = self.inserted + 1;
            }
        }
    }

    /// Offers the pairs of a list of chunks to the segment, one after the other.
    pub fn fill(&mut self, batch: Vec<Vec<Displaced<K, V>>>)
        requires
            old(self).wf(),
            forall|k: int| 0 <= k < flat(batch@).len() ==> fits(old(self)@, #[trigger] flat(batch@)[k]),
        ensures
            final(self).wf(),
            final(self)@ == run(old(self)@, flat(batch@)),
    {
        let ghost chunks = batch@;
        let ghost before = self@;
        for chunk in outer: batch.into_iter()
            invariant
                outer.seq() == chunks,
                self.wf(),
                self@.base == before.base,
                self@.bits == before.bits,
                self@.slots.len() == before.slots.len(),
                self@ == run(before, flat(chunks.take(outer.index() as int))),
                forall|k: int| 0 <= k < flat(chunks).len() ==> fits(before, #[trigger] flat(chunks)[k]),
        {
            let ghost done = flat(chunks.take(outer.index() as int));
            let ghost items = chunk@;
            proof {
                assert(chunks.take(outer.index() as int + 1) == chunks.take(
                    outer.index() as int,
                ).push(chunk));
                assert(chunks.take(outer.index() as int + 1).drop_last() == chunks.take(
                    outer.index() as int,
                ));
                assert(chunks == chunks.take(outer.index() as int + 1) + chunks.skip(
                    outer.index() as int + 1,
                ));
                lemma_flat_concat(
                    chunks.take(outer.index() as int + 1),
                    chunks.skip(outer.index() as int + 1),
                );
                assert(done + items.take(0) == done);
                assert(flat(chunks.take(outer.index() as int + 1)) == done + items);
                assert forall|k: int| 0 <= k < (done + items).len() implies fits(
                    before,
                    #[trigger] (done + items)[k],
                ) by {
                    assert((done + items)[k] == flat(chunks)[k]);
                }
            }
            for item in inner: chunk.into_iter()
                invariant
                    inner.seq() == items,
                    self.wf(),
                    self@.base == before.base,
                    self@.bits == before.bits,
                    self@.slots.len() == before.slots.len(),
                    self@ == run(before, done + items.take(inner.index() as int)),
                    forall|k: int|
                        0 <= k < (done + items).len() ==> fits(before, #[trigger] (done + items)[k]),
            {
                let ghost i = inner.index() as int;
                proof {
                    assert(fits(before, (done + items)[done.len() + i]));
                    assert((done + items.take(i + 1)) == (done + items.take(i)).push(item));
                    assert((done + items.take(i + 1)).drop_last() == done + items.take(i));
                    lemma_step_wf(self@, item);
                }
                let Displaced { hash, key, value, displacement } = item;
                self.insert(hash, key, value, displacement);
            }
            proof {
                assert(items.take(items.len() as int) == items);
            }
        }
        proof {
            assert(chunks.take(chunks.len() as int) == chunks);
        }
    }

    /// Hands out the number of buckets filled and the overflow since the last call,
    /// and starts both anew.
    pub fn take(&mut self) -> (r: (usize, Vec<Displaced<K, V>>))
        requires
            old(self).wf(),
        ensures
            final(self).wf(),
            r.0 == old(self)@.inserted,
            r.1@ == old(self)@.overflow,
            final(self)@ == (SegmentView {
                inserted: 0,
                overflow: Seq::empty(),
                ..old(self)@
            }),
    {
        let mut overflow: Vec<Displaced<K, V>> = Vec::new();
        core::mem::swap(&mut self.overflow, &mut overflow);
        let inserted = self.inserted;
        self.inserted = 0;
        (inserted, overflow)
    }
}

/// The pairs of two lists of chunks joined are the pairs of the first followed by
/// the pairs of the second.
pub proof fn lemma_flat_concat<T>(a: Seq<Vec<T>>, b: Seq<Vec<T>>)
    ensures
        flat(a + b) == flat(a) + flat(b),
    decreases b.len(),
{
    if b.len() == 0 {
        assert(a + b == a);
        assert(flat(a) + Seq::<T>::empty() == flat(a));
    } else {
        lemma_flat_concat(a, b.drop_last());
        assert((a + b).drop_last() == a + b.drop_last());
        assert((a + b).last() == b.last());
        assert(flat(a) + flat(b.drop_last()) + b.last()@ == flat(a) + (flat(b.drop_last())
            + b.last()@));
    }
}

/// The number of buckets of an array of `2^bits` buckets.
pub fn capacity(bits: u32) -> (c: usize)
    requires
        valid_bits(bits),
    ensures
        c == capacity_of(bits),
{
    let mut c: usize = 1;
    let mut i: u32 = 0;
    proof {
        lemma2_to64();
    }
    while i < bits
        invariant
            i <= bits,
            valid_bits(bits),
            c == pow2(i as nat),
        decreases bits - i,
    {
        proof {
            vstd::arithmetic::power2::lemma_pow2_unfold((i + 1) as nat);
            if i + 1 < bits {
                vstd::arithmetic::power2::lemma_pow2_strictly_increases((i + 1) as nat, bits as nat);
            }
        }
        c = c * 2;
        i += 1;
    }
    c
}

} // verus!
