//! The bucket array as a whole: probe paths around its end, and its cut into
//! segments.

use crate::segment::{
    capacity_of, home, lemma_segment_bases, segment_base, start_of, valid_bits, Displaced,
    SegmentView,
};
use crate::table::{
    lemma_occupied_local, lemma_occupied_members, lemma_occupied_split, occupied, Entry,
};
use vstd::arithmetic::div_mod::{lemma_fundamental_div_mod, lemma_mod_bound};
use vstd::arithmetic::power2::{lemma_pow2_adds, lemma_pow2_pos};
use vstd::prelude::*;

verus! {

/// Bucket `q` lies on the way from bucket `i` up to, but not including, bucket `p`,
/// going upwards and around the end of the array.
pub open spec fn in_run(i: int, q: int, p: int) -> bool {
    if i <= p {
        i <= q < p
    } else {
        i <= q || q < p
    }
}

/// Every entry can be found by probing from its home: the buckets from its home up
/// to its own bucket are all occupied.
pub open spec fn placed<K, V>(g: Seq<Option<Entry<K, V>>>, bits: u32) -> bool {
    &&& g.len() == capacity_of(bits)
    &&& forall|p: int, q: int|
        0 <= p < g.len() && 0 <= q < g.len() && (#[trigger] g[p]) is Some && in_run(
            home(g[p]->0.hash, bits),
            q,
            p,
        ) ==> (#[trigger] g[q]) is Some
}

/// A pair on its way has passed occupied buckets only: those from its home up to
/// the bucket where it goes on.
pub open spec fn pending_ok<K, V>(g: Seq<Option<Entry<K, V>>>, bits: u32, it: Displaced<K, V>) -> bool {
    &&& it.displacement < capacity_of(bits)
    &&& forall|q: int|
        0 <= q < g.len() && in_run(
            home(it.hash, bits),
            q,
            start_of(it.hash, it.displacement as int, bits),
        ) ==> (#[trigger] g[q]) is Some
}

/// The segments cut an array of `2^bits` buckets into `2^shard_bits` parts of equal
/// length that follow one another.
pub open spec fn layout_ok<K, V>(segs: Seq<SegmentView<K, V>>, bits: u32, shard_bits: u32) -> bool {
    &&& shard_bits <= bits
    &&& valid_bits(bits)
    &&& segs.len() == capacity_of(shard_bits)
    &&& forall|m: int|
        0 <= m < segs.len() ==> (#[trigger] segs[m]).bits == bits && segs[m].base
            == segment_base(m, bits, shard_bits) && segs[m].slots.len() == capacity_of(
            (bits - shard_bits) as u32,
        )
}

/// The array `g` is the segments laid end to end.
pub open spec fn covers<K, V>(
    g: Seq<Option<Entry<K, V>>>,
    segs: Seq<SegmentView<K, V>>,
    bits: u32,
    shard_bits: u32,
) -> bool {
    &&& layout_ok(segs, bits, shard_bits)
    &&& g.len() == capacity_of(bits)
    &&& forall|m: int, j: int|
        0 <= m < segs.len() && 0 <= j < segs[m].slots.len() ==> g[segs[m].base + j]
            == #[trigger] segs[m].slots[j]
}

/// The segments laid end to end.
pub open spec fn whole<K, V>(segs: Seq<SegmentView<K, V>>, bits: u32, shard_bits: u32) -> Seq<
    Option<Entry<K, V>>,
> {
    Seq::new(
        capacity_of(bits) as nat,
        |p: int|
            segs[p / capacity_of((bits - shard_bits) as u32)].slots[p % capacity_of(
                (bits - shard_bits) as u32,
            )],
    )
}

/// The segment and the position in it of bucket `p` of the whole array.
pub proof fn lemma_locate<K, V>(segs: Seq<SegmentView<K, V>>, bits: u32, shard_bits: u32, p: int) -> (r:
    (int, int))
    requires
        layout_ok(segs, bits, shard_bits),
        0 <= p < capacity_of(bits),
    ensures
        0 <= r.0 < segs.len(),
        0 <= r.1 < segs[r.0].slots.len(),
        p == segs[r.0].base + r.1,
        r.0 == p / capacity_of((bits - shard_bits) as u32),
        r.1 == p % capacity_of((bits - shard_bits) as u32),
{
    let len = capacity_of((bits - shard_bits) as u32);
    let n = capacity_of(shard_bits);
    lemma_pow2_adds(shard_bits as nat, (bits - shard_bits) as nat);
    lemma_pow2_pos((bits - shard_bits) as nat);
    lemma_pow2_pos(shard_bits as nat);
    lemma_fundamental_div_mod(p, len);
    lemma_mod_bound(p, len);
    let m = p / len;
    let j = p % len;
    assert(0 <= m < n) by (nonlinear_arith)
        requires
            0 <= p < n * len,
            len > 0,
            p == len * m + j,
            0 <= j < len,
    ;
    assert(m * len == len * m) by (nonlinear_arith);
    (m, j)
}

/// A bucket of a segment has one index in the whole array, and no other bucket of
/// any segment has the same: the segments are disjoint.
pub proof fn lemma_segments_disjoint<K, V>(
    segs: Seq<SegmentView<K, V>>,
    bits: u32,
    shard_bits: u32,
    m1: int,
    j1: int,
    m2: int,
    j2: int,
)
    requires
        layout_ok(segs, bits, shard_bits),
        0 <= m1 < segs.len(),
        0 <= m2 < segs.len(),
        0 <= j1 < segs[m1].slots.len(),
        0 <= j2 < segs[m2].slots.len(),
    ensures
        0 <= segs[m1].base + j1 < capacity_of(bits),
        segs[m1].base + j1 == segs[m2].base + j2 ==> m1 == m2 && j1 == j2,
        m1 < m2 ==> segs[m1].base + segs[m1].slots.len() <= segs[m2].base,
        (segs[m1].base + j1) / capacity_of((bits - shard_bits) as u32) == m1,
        (segs[m1].base + j1) % capacity_of((bits - shard_bits) as u32) == j1,
{
    let len = capacity_of((bits - shard_bits) as u32);
    let n = capacity_of(shard_bits);
    lemma_pow2_adds(shard_bits as nat, (bits - shard_bits) as nat);
    lemma_pow2_pos((bits - shard_bits) as nat);
    assert(0 <= m1 * len + j1 < n * len) by (nonlinear_arith)
        requires
            0 <= m1 < n,
            0 <= j1 < len,
    ;
    assert(m1 < m2 ==> m1 * len + len <= m2 * len) by (nonlinear_arith)
        requires
            len > 0,
    ;
    assert(m2 < m1 ==> m2 * len + len <= m1 * len) by (nonlinear_arith)
        requires
            len > 0,
    ;
    vstd::arithmetic::div_mod::lemma_fundamental_div_mod_converse(m1 * len + j1, len, m1, j1);
}

/// The array made of the segments is the one array that they cover.
pub proof fn lemma_whole_covers<K, V>(segs: Seq<SegmentView<K, V>>, bits: u32, shard_bits: u32)
    requires
        layout_ok(segs, bits, shard_bits),
    ensures
        covers(whole(segs, bits, shard_bits), segs, bits, shard_bits),
{
    let g = whole(segs, bits, shard_bits);
    assert forall|m: int, j: int|
        0 <= m < segs.len() && 0 <= j < segs[m].slots.len() implies g[segs[m].base + j]
        == #[trigger] segs[m].slots[j] by {
        lemma_segments_disjoint(segs, bits, shard_bits, m, j, m, j);
    }
}

/// An array with fewer entries than buckets has an empty bucket.
pub proof fn lemma_exists_empty<K, V>(g: Seq<Option<Entry<K, V>>>, hi: int) -> (e: int)
    requires
        0 <= hi <= g.len(),
        occupied(g, 0, hi).len() < hi,
    ensures
        0 <= e < hi,
        g[e] is None,
    decreases hi,
{
    lemma_occupied_members(g, 0, hi - 1);
    if g[hi - 1] is None {
        hi - 1
    } else {
        lemma_exists_empty(g, hi - 1)
    }
}

/// The sum of the numbers of a list.
pub open spec fn sum(s: Seq<int>) -> int
    decreases s.len(),
{
    if s.len() == 0 {
        0
    } else {
        sum(s.drop_last()) + s.last()
    }
}

/// Of two lists of equal length, the one with the smaller numbers has the smaller sum.
pub proof fn lemma_sum_le(a: Seq<int>, b: Seq<int>)
    requires
        a.len() == b.len(),
        forall|i: int| 0 <= i < a.len() ==> #[trigger] a[i] <= b[i],
    ensures
        sum(a) <= sum(b),
    decreases a.len(),
{
    if a.len() > 0 {
        lemma_sum_le(a.drop_last(), b.drop_last());
        assert(a.last() == a[a.len() - 1]);
    }
}

/// A list of numbers that are not negative has a sum that is not negative, and
/// none of the numbers is greater than the sum.
pub proof fn lemma_sum_bounds(a: Seq<int>)
    requires
        forall|i: int| 0 <= i < a.len() ==> #[trigger] a[i] >= 0,
    ensures
        sum(a) >= 0,
        forall|i: int| 0 <= i < a.len() ==> #[trigger] a[i] <= sum(a),
    decreases a.len(),
{
    if a.len() > 0 {
        lemma_sum_bounds(a.drop_last());
        assert forall|i: int| 0 <= i < a.len() implies #[trigger] a[i] <= sum(a) by {
            if i < a.len() - 1 {
                assert(a.drop_last()[i] == a[i]);
            }
        }
    }
}

/// The sum of a list whose numbers are sums of two is the sum of the two sums.
pub proof fn lemma_sum_add(a: Seq<int>, b: Seq<int>, c: Seq<int>)
    requires
        a.len() == b.len(),
        a.len() == c.len(),
        forall|i: int| 0 <= i < a.len() ==> #[trigger] c[i] == a[i] + b[i],
    ensures
        sum(c) == sum(a) + sum(b),
    decreases a.len(),
{
    if a.len() > 0 {
        lemma_sum_add(a.drop_last(), b.drop_last(), c.drop_last());
        assert(c.last() == c[c.len() - 1]);
    }
}

/// Putting a number in front of a list adds it to the sum.
pub proof fn lemma_sum_front(x: int, a: Seq<int>)
    ensures
        sum(seq![x] + a) == x + sum(a),
    decreases a.len(),
{
    if a.len() == 0 {
        assert(seq![x] + a == seq![x]);
        assert(seq![x].drop_last() == Seq::<int>::empty());
        assert(sum(seq![x]) == sum(seq![x].drop_last()) + seq![x].last());
        assert(sum(Seq::<int>::empty()) == 0);
    } else {
        lemma_sum_front(x, a.drop_last());
        assert((seq![x] + a).drop_last() == seq![x] + a.drop_last());
        assert((seq![x] + a).last() == a.last());
    }
}

/// The number of entries of the whole array is the sum of the numbers of entries
/// of the segments.
pub proof fn lemma_occupied_sum<K, V>(
    g: Seq<Option<Entry<K, V>>>,
    segs: Seq<SegmentView<K, V>>,
    bits: u32,
    shard_bits: u32,
    upto: int,
)
    requires
        covers(g, segs, bits, shard_bits),
        0 <= upto <= segs.len(),
    ensures
        occupied(g, 0, segment_base(upto, bits, shard_bits)).len() == sum(
            Seq::new(upto as nat, |m: int| occupied(segs[m].slots, 0, segs[m].slots.len() as int).len() as int),
        ),
        0 <= segment_base(upto, bits, shard_bits) <= capacity_of(bits),
    decreases upto,
{
    let counts = Seq::new(
        upto as nat,
        |m: int| occupied(segs[m].slots, 0, segs[m].slots.len() as int).len() as int,
    );
    lemma_pow2_pos(shard_bits as nat);
    if upto == 0 {
        lemma_segment_bases(0, bits, shard_bits);
    } else {
        let m = upto - 1;
        lemma_occupied_sum(g, segs, bits, shard_bits, m);
        lemma_segment_bases(m, bits, shard_bits);
        let lo = segment_base(m, bits, shard_bits);
        let hi = segment_base(upto, bits, shard_bits);
        lemma_occupied_split(g, 0, lo, hi);
        assert forall|i: int| 0 <= i < hi - lo implies #[trigger] segs[m].slots[i] is Some == (g[i
            + lo] is Some) by {
            assert(g[segs[m].base + i] == segs[m].slots[i]);
        }
        lemma_occupied_local(segs[m].slots, g, 0, hi - lo, lo);
        let before = Seq::new(
            m as nat,
            |m: int| occupied(segs[m].slots, 0, segs[m].slots.len() as int).len() as int,
        );
        assert(counts.drop_last() == before);
    }
}

} // verus!
