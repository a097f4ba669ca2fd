//! Bulk construction of a bucket array from a list of pairs: the pairs are sorted
//! by shard, every shard is inserted into its own segment, and what runs over the
//! end of a segment is inserted into the next one, round after round.
use crate::batch::{absent, consistent, last_val, lemma_last_val_push, lemma_last_val_some, unique};
use crate::key::{make_hash, HashStrategy, TableKey};
use crate::layout::{
    covers, layout_ok, lemma_locate, lemma_occupied_sum, lemma_segments_disjoint, lemma_sum_bounds,
    lemma_whole_covers, placed, sum, whole,
};
use crate::round::{
    cleared, inserted_counts, item_ok, lemma_round, lemma_round_counts, lens, occ_counts, overflows,
    rotated, round_inv, waiting,
};
use crate::segment::{
    capacity, capacity_of, fits, flat, home, home_index, lemma_flat_concat, lemma_home_bound,
    lemma_home_in_segment, lemma_segment_bases, lemma_valid_bits_smaller, run, segment_base,
    segment_wf, start_of, valid_bits, Displaced, SegmentView, ShardSegment,
};
use crate::table::{all_empty, lemma_occupied_none, occupied, Entry, RawTable};
use vstd::arithmetic::power2::{
    lemma2_to64, lemma2_to64_rest, lemma_pow2_adds, lemma_pow2_pos, lemma_pow2_strictly_increases,
    lemma_pow2_unfold, pow2,
};
use vstd::prelude::*;

verus! {

/// No table is cut into more than `2^16` shards.
pub const MAX_SHARD_BITS: u32 = 16;

/// The number of bits of a hash that pick the shard when `cpus` workers are at hand:
/// the shards are as many as the next power of two at or above `cpus`, and at most
/// `2^16`.
pub fn shard_bits_for(cpus: usize) -> (b: u32)
    ensures
        b <= MAX_SHARD_BITS,
        b < MAX_SHARD_BITS ==> pow2(b as nat) >= cpus,
        b > 0 ==> pow2((b - 1) as nat) < cpus,
{
    let mut b: u32 = 0;
    let mut n: usize = 1;
    proof {
        lemma2_to64();
    }
    while n < cpus && b < MAX_SHARD_BITS
        invariant
            b <= MAX_SHARD_BITS,
            n == pow2(b as nat),
            n <= 0x10000,
            b > 0 ==> pow2((b - 1) as nat) < cpus,
        decreases MAX_SHARD_BITS - b,
    {
        proof {
            lemma_pow2_unfold((b + 1) as nat);
            lemma2_to64();
            if b + 1 < 16 {
                lemma_pow2_strictly_increases((b + 1) as nat, 16);
            }
        }
        n = n * 2;
        b = b + 1;
    }
    b
}

/// The pair as it enters the table: with its hash under the strategy, and with no
/// bucket tried yet.
pub open spec fn entering<K: TableKey, V, S: HashStrategy>(pair: (K, V), strategy: S) -> Displaced<
    K,
    V,
> {
    Displaced {
        hash: strategy.spec_hash(pair.0.code()),
        key: pair.0,
        value: pair.1,
        displacement: 0,
    }
}

/// The pairs as they enter the table, in their order.
pub open spec fn hashed<K: TableKey, V, S: HashStrategy>(items: Seq<(K, V)>, strategy: S) -> Seq<
    Displaced<K, V>,
> {
    Seq::new(items.len(), |i: int| entering(items[i], strategy))
}

/// The pairs of shard `m`, in their order: those whose hash has `m` in its topmost
/// `shard_bits` bits below the sign bit.
pub open spec fn routed<K, V>(input: Seq<Displaced<K, V>>, shard_bits: u32, m: int) -> Seq<
    Displaced<K, V>,
>
    decreases input.len(),
{
    if input.len() == 0 {
        Seq::empty()
    } else if home(input.last().hash, shard_bits) == m {
        routed(input.drop_last(), shard_bits, m).push(input.last())
    } else {
        routed(input.drop_last(), shard_bits, m)
    }
}

/// Sorting two lists by shard and joining the results shard by shard is sorting the
/// joined list.
pub proof fn lemma_routed_concat<K, V>(
    a: Seq<Displaced<K, V>>,
    b: Seq<Displaced<K, V>>,
    shard_bits: u32,
    m: int,
)
    ensures
        routed(a + b, shard_bits, m) == routed(a, shard_bits, m) + routed(b, shard_bits, m),
    decreases b.len(),
{
    if b.len() == 0 {
        assert(a + b == a);
        assert(routed(a, shard_bits, m) + Seq::<Displaced<K, V>>::empty() == routed(a, shard_bits, m));
    } else {
        lemma_routed_concat(a, b.drop_last(), shard_bits, m);
        assert((a + b).drop_last() == a + b.drop_last());
        assert((a + b).last() == b.last());
        if home(b.last().hash, shard_bits) == m {
            assert((routed(a, shard_bits, m) + routed(b.drop_last(), shard_bits, m)).push(b.last())
                == routed(a, shard_bits, m) + routed(b.drop_last(), shard_bits, m).push(b.last()));
        }
    }
}

/// A shard holds pairs of the input only, all of its own shard and none displaced
/// if none was; under a hash and key of its own it ends with the same value as the
/// input does; and a pair of the input is in the shard that its hash names.
pub proof fn lemma_routed<K, V>(input: Seq<Displaced<K, V>>, shard_bits: u32, m: int)
    ensures
        routed(input, shard_bits, m).len() <= input.len(),
        forall|k: int|
            0 <= k < routed(input, shard_bits, m).len() ==> home(
                (#[trigger] routed(input, shard_bits, m)[k]).hash,
                shard_bits,
            ) == m,
        (forall|t: int| 0 <= t < input.len() ==> (#[trigger] input[t]).displacement == 0)
            ==> forall|k: int|
            0 <= k < routed(input, shard_bits, m).len() ==> (#[trigger] routed(
                input,
                shard_bits,
                m,
            )[k]).displacement == 0,
        forall|hash: u64, key: K|
            home(hash, shard_bits) == m ==> #[trigger] last_val(
                routed(input, shard_bits, m),
                hash,
                key,
            ) == last_val(input, hash, key),
    decreases input.len(),
{
    if input.len() > 0 {
        let prev = input.drop_last();
        let it = input.last();
        lemma_routed(prev, shard_bits, m);
        let rp = routed(prev, shard_bits, m);
        assert forall|hash: u64, key: K| home(hash, shard_bits) == m implies #[trigger] last_val(
            routed(input, shard_bits, m),
            hash,
            key,
        ) == last_val(input, hash, key) by {
            assert(input == prev.push(it));
            lemma_last_val_push(prev, it, hash, key);
            if home(it.hash, shard_bits) == m {
                lemma_last_val_push(rp, it, hash, key);
            }
        }
        if (forall|t: int| 0 <= t < input.len() ==> (#[trigger] input[t]).displacement == 0) {
            assert forall|t: int| 0 <= t < prev.len() implies (#[trigger] prev[t]).displacement
                == 0 by {
                assert(prev[t] == input[t]);
            }
            assert(input[input.len() - 1].displacement == 0);
        }
    }
}

/// The shards together hold as many pairs as the input.
pub proof fn lemma_routed_total<K, V>(input: Seq<Displaced<K, V>>, shard_bits: u32)
    requires
        shard_bits <= 62,
    ensures
        sum(Seq::new(capacity_of(shard_bits) as nat, |m: int| routed(input, shard_bits, m).len() as int))
            == input.len(),
    decreases input.len(),
{
    let n = capacity_of(shard_bits) as nat;
    let counts = Seq::new(n, |m: int| routed(input, shard_bits, m).len() as int);
    if input.len() == 0 {
        lemma_sum_constant(counts, 0);
    } else {
        let prev = input.drop_last();
        let before = Seq::new(n, |m: int| routed(prev, shard_bits, m).len() as int);
        lemma_routed_total(prev, shard_bits);
        lemma_home_bound(input.last().hash, shard_bits);
        let own = home(input.last().hash, shard_bits);
        assert(counts == before.update(own, before[own] + 1));
        lemma_sum_update(before, own, before[own] + 1);
    }
}

/// A list of equal numbers sums to their number times the number.
pub proof fn lemma_sum_constant(a: Seq<int>, c: int)
    requires
        forall|i: int| 0 <= i < a.len() ==> #[trigger] a[i] == c,
    ensures
        sum(a) == a.len() * c,
    decreases a.len(),
{
    if a.len() > 0 {
        lemma_sum_constant(a.drop_last(), c);
        assert(a.last() == a[a.len() - 1]);
        assert((a.len() - 1) * c + c == a.len() * c) by (nonlinear_arith);
    } else {
        assert(0 * c == 0) by (nonlinear_arith);
    }
}

/// Changing one number of a list changes the sum by as much.
pub proof fn lemma_sum_update(a: Seq<int>, i: int, x: int)
    requires
        0 <= i < a.len(),
    ensures
        sum(a.update(i, x)) == sum(a) - a[i] + x,
    decreases a.len(),
{
    if i == a.len() - 1 {
        assert(a.update(i, x).drop_last() == a.drop_last());
    } else {
        lemma_sum_update(a.drop_last(), i, x);
        assert(a.update(i, x).drop_last() == a.drop_last().update(i, x));
    }
}

/// The pairs of each list of chunks.
pub open spec fn flats<T>(batches: Seq<Vec<Vec<T>>>) -> Seq<Seq<T>> {
    Seq::new(batches.len(), |m: int| flat(batches[m]@))
}

/// Sorts the pairs by shard, one after the other, each with its hash.
fn shard_fold<K: TableKey, V, S: HashStrategy>(items: Vec<(K, V)>, strategy: &S, shard_bits: u32) -> (out:
    Vec<Vec<Vec<Displaced<K, V>>>>)
    requires
        valid_bits(shard_bits),
    ensures
        out@.len() == capacity_of(shard_bits),
        forall|m: int|
            0 <= m < out@.len() ==> #[trigger] flats(out@)[m] == routed(
                hashed(items@, *strategy),
                shard_bits,
                m,
            ),
{
    let num_shards = capacity(shard_bits);
    let ghost all = items@;
    let ghost input = hashed(all, *strategy);
    let mut shards: Vec<Vec<Displaced<K, V>>> = Vec::new();
    let mut m: usize = 0;
    while m < num_shards
        invariant
            m <= num_shards,
            shards@.len() == m,
            forall|i: int| 0 <= i < m ==> (#[trigger] shards@[i])@.len() == 0,
        decreases num_shards - m,
    {
        shards.push(Vec::new());
        m += 1;
    }
    proof {
        assert(input.take(0) == Seq::<Displaced<K, V>>::empty());
    }
    for item in it: items.into_iter()
        invariant
            it.seq() == all,
            input == hashed(all, *strategy),
            valid_bits(shard_bits),
            num_shards == capacity_of(shard_bits),
            shards@.len() == num_shards,
            forall|i: int|
                0 <= i < num_shards ==> (#[trigger] shards@[i])@ == routed(
                    input.take(it.index() as int),
                    shard_bits,
                    i,
                ),
    {
        let ghost done = input.take(it.index() as int);
        let (k, v) = item;
        let hash = make_hash(strategy, &k);
        let shard = home_index(hash, shard_bits);
        let entry = Displaced { hash, key: k, value: v, displacement: 0 };
        proof {
            assert(entry == input[it.index() as int]);
            assert(input.take(it.index() as int + 1) == done.push(entry));
            assert(done.push(entry).drop_last() == done);
        }
        shards[shard].push(entry);
    }
    proof {
        assert(input.take(all.len() as int) == input);
    }
    // Each shard becomes a list of one chunk.
    let mut out: Vec<Vec<Vec<Displaced<K, V>>>> = Vec::new();
    let ghost sorted = shards@;
    for chunk in it: shards.into_iter()
        invariant
            it.seq() == sorted,
            out@.len() == it.index(),
            forall|i: int| 0 <= i < it.index() ==> #[trigger] flats(out@)[i] == sorted[i]@,
    {
        let ghost before = out@;
        let mut list: Vec<Vec<Displaced<K, V>>> = Vec::new();
        list.push(chunk);
        proof {
            assert(list@.drop_last() == Seq::<Vec<Displaced<K, V>>>::empty());
            assert(flat(list@) == flat(list@.drop_last()) + list@.last()@);
            assert(flat(Seq::<Vec<Displaced<K, V>>>::empty()) + chunk@ == chunk@);
        }
        out.push(list);
        proof {
            assert forall|i: int| 0 <= i < it.index() + 1 implies #[trigger] flats(out@)[i]
                == sorted[i]@ by {
                if i < it.index() {
                    assert(flats(before)[i] == sorted[i]@);
                    assert(out@[i] == before[i]);
                }
            }
        }
    }
    out
}

/// Entering the table pair by pair, a joined list enters as its two parts do.
pub proof fn lemma_hashed_concat<K: TableKey, V, S: HashStrategy>(
    a: Seq<(K, V)>,
    b: Seq<(K, V)>,
    strategy: S,
)
    ensures
        hashed(a + b, strategy) == hashed(a, strategy) + hashed(b, strategy),
{
    assert(hashed(a + b, strategy) =~= hashed(a, strategy) + hashed(b, strategy));
}

/// Joins two sortings by shard: shard by shard, the chunks of the second are put
/// behind the chunks of the first. No pair is moved, only the chunks.
fn merge_shards<K, V>(
    left: Vec<Vec<Vec<Displaced<K, V>>>>,
    right: Vec<Vec<Vec<Displaced<K, V>>>>,
) -> (out: Vec<Vec<Vec<Displaced<K, V>>>>)
    requires
        left@.len() == right@.len(),
    ensures
        out@.len() == left@.len(),
        forall|m: int|
            0 <= m < out@.len() ==> #[trigger] flats(out@)[m] == flats(left@)[m] + flats(right@)[m],
{
    let mut out = left;
    let ghost second = right@;
    let count = out.len();
    let mut m: usize = 0;
    for list in it: right.into_iter()
        invariant
            it.seq() == second,
            m == it.index(),
            out@.len() == count,
            out@.len() == left@.len(),
            left@.len() == second.len(),
            forall|i: int|
                0 <= i < m ==> #[trigger] flats(out@)[i] == flats(left@)[i] + flats(second)[i],
            forall|i: int| m <= i < out@.len() ==> #[trigger] out@[i] == left@[i],
    {
        let ghost before = out@;
        let mut list = list;
        proof {
            lemma_flat_concat(out@[m as int]@, list@);
        }
        out[m].append(&mut list);
        proof {
            assert forall|i: int| 0 <= i < m + 1 implies #[trigger] flats(out@)[i] == flats(left@)[i]
                + flats(second)[i] by {
                if i < m {
                    assert(flats(before)[i] == flats(left@)[i] + flats(second)[i]);
                    assert(out@[i] == before[i]);
                }
            }
        }
        m = m + 1;
    }
    out
}

/// Sorts the pairs by shard, each with its hash. The list is cut in two while
/// `splits` lasts, the halves are sorted side by side and the results joined, so
/// that every shard has its pairs in the order of the list.
pub fn shard_items<K: TableKey + Send, V: Send, S: HashStrategy + Sync>(
    items: Vec<(K, V)>,
    strategy: &S,
    shard_bits: u32,
    splits: usize,
) -> (out: Vec<Vec<Vec<Displaced<K, V>>>>)
    requires
        valid_bits(shard_bits),
    ensures
        out@.len() == capacity_of(shard_bits),
        forall|m: int|
            0 <= m < out@.len() ==> #[trigger] flats(out@)[m] == routed(
                hashed(items@, *strategy),
                shard_bits,
                m,
            ),
    decreases items@.len(),
{
    if splits == 0 || items.len() < 2 {
        return shard_fold(items, strategy, shard_bits);
    }
    let ghost all = items@;
    let mut first = items;
    let mid = first.len() / 2;
    let second = first.split_off(mid);
    let ghost a = first@;
    let ghost b = second@;
    let run_first = || -> (out: Vec<Vec<Vec<Displaced<K, V>>>>)
        ensures
            out@.len() == capacity_of(shard_bits),
            forall|m: int|
                0 <= m < out@.len() ==> #[trigger] flats(out@)[m] == routed(
                    hashed(first@, *strategy),
                    shard_bits,
                    m,
                ),
        {
            shard_items(first, strategy, shard_bits, splits / 2)
        };
    let run_second = || -> (out: Vec<Vec<Vec<Displaced<K, V>>>>)
        ensures
            out@.len() == capacity_of(shard_bits),
            forall|m: int|
                0 <= m < out@.len() ==> #[trigger] flats(out@)[m] == routed(
                    hashed(second@, *strategy),
                    shard_bits,
                    m,
                ),
        {
            shard_items(second, strategy, shard_bits, splits / 2)
        };
    let (left, right) = rayon::join(run_first, run_second);
    let out = merge_shards(left, right);
    proof {
        assert(all == a + b);
        lemma_hashed_concat(a, b, *strategy);
        assert forall|m: int| 0 <= m < out@.len() implies #[trigger] flats(out@)[m] == routed(
            hashed(all, *strategy),
            shard_bits,
            m,
        ) by {
            lemma_routed_concat(hashed(a, *strategy), hashed(b, *strategy), shard_bits, m);
            assert(flats(left@)[m] == routed(hashed(a, *strategy), shard_bits, m));
            assert(flats(right@)[m] == routed(hashed(b, *strategy), shard_bits, m));
        }
    }
    out
}

/// The views of the segments.
pub open spec fn views<K, V>(segs: Seq<ShardSegment<K, V>>) -> Seq<SegmentView<K, V>> {
    Seq::new(segs.len(), |m: int| segs[m]@)
}

/// Every segment can take in its batch.
pub open spec fn round_ready<K: TableKey, V>(
    segs: Seq<ShardSegment<K, V>>,
    batches: Seq<Vec<Vec<Displaced<K, V>>>>,
) -> bool {
    &&& segs.len() == batches.len()
    &&& forall|m: int| 0 <= m < segs.len() ==> (#[trigger] segs[m]).wf()
    &&& forall|m: int, k: int|
        0 <= m < segs.len() && 0 <= k < flats(batches)[m].len() ==> fits(
            segs[m]@,
            #[trigger] flats(batches)[m][k],
        )
}

/// The segments `after`, with the counts and overflow `taken` from them, are the
/// segments `before` after each took in its batch.
pub open spec fn round_done<K: TableKey, V>(
    before: Seq<ShardSegment<K, V>>,
    batches: Seq<Vec<Vec<Displaced<K, V>>>>,
    after: Seq<ShardSegment<K, V>>,
    taken: Seq<(usize, Vec<Displaced<K, V>>)>,
) -> bool {
    &&& after.len() == before.len()
    &&& taken.len() == before.len()
    &&& forall|m: int|
        0 <= m < before.len() ==> {
            let r = run(before[m]@, flats(batches)[m]);
            &&& (#[trigger] after[m]).wf()
            &&& after[m]@ == (SegmentView { inserted: 0, overflow: Seq::empty(), ..r })
            &&& taken[m].0 == r.inserted
            &&& taken[m].1@ == r.overflow
        }
}

/// Lets every segment take in its batch, each segment in a task of its own, and
/// takes from each its count and its overflow.
pub fn insert_round<K: TableKey + Send, V: Send>(
    segs: Vec<ShardSegment<K, V>>,
    batches: Vec<Vec<Vec<Displaced<K, V>>>>,
) -> (r: (Vec<ShardSegment<K, V>>, Vec<(usize, Vec<Displaced<K, V>>)>))
    requires
        round_ready(segs@, batches@),
    ensures
        round_done(segs@, batches@, r.0@, r.1@),
    decreases segs@.len(),
{
    let ghost before = segs@;
    let ghost given = batches@;
    let mut segs = segs;
    let mut batches = batches;
    if segs.len() == 0 {
        return (segs, Vec::new());
    }
    if segs.len() == 1 {
        let mut seg = segs.pop().unwrap();
        let batch = batches.pop().unwrap();
        proof {
            assert(seg == before[0]);
            assert(batch == given[0]);
            assert forall|k: int| 0 <= k < flat(batch@).len() implies fits(
                seg@,
                #[trigger] flat(batch@)[k],
            ) by {
                assert(flat(batch@)[k] == flats(given)[0][k]);
            }
        }
        seg.fill(batch);
        let taken = seg.take();
        let mut after: Vec<ShardSegment<K, V>> = Vec::new();
        after.push(seg);
        let mut counts: Vec<(usize, Vec<Displaced<K, V>>)> = Vec::new();
        counts.push(taken);
        return (after, counts);
    }
    let mid = segs.len() / 2;
    let right_segs = segs.split_off(mid);
    let right_batches = batches.split_off(mid);
    proof {
        assert(round_ready(segs@, batches@)) by {
            assert forall|m: int, k: int|
                0 <= m < segs@.len() && 0 <= k < flats(batches@)[m].len() implies fits(
                segs@[m]@,
                #[trigger] flats(batches@)[m][k],
            ) by {
                assert(segs@[m] == before[m]);
                assert(flats(batches@)[m] == flats(given)[m]);
            }
            assert forall|m: int| 0 <= m < segs@.len() implies (#[trigger] segs@[m]).wf() by {
                assert(segs@[m] == before[m]);
            }
        }
        assert(round_ready(right_segs@, right_batches@)) by {
            assert forall|m: int, k: int|
                0 <= m < right_segs@.len() && 0 <= k < flats(right_batches@)[m].len() implies fits(
                right_segs@[m]@,
                #[trigger] flats(right_batches@)[m][k],
            ) by {
                assert(right_segs@[m] == before[m + mid]);
                assert(flats(right_batches@)[m] == flats(given)[m + mid]);
            }
            assert forall|m: int| 0 <= m < right_segs@.len() implies (#[trigger] right_segs@[m]).wf() by {
                assert(right_segs@[m] == before[m + mid]);
            }
        }
    }
    let ghost left_before = segs@;
    let ghost left_given = batches@;
    let ghost right_before = right_segs@;
    let ghost right_given = right_batches@;
    let run_left = || -> (r: (Vec<ShardSegment<K, V>>, Vec<(usize, Vec<Displaced<K, V>>)>))
        ensures
            round_done(segs@, batches@, r.0@, r.1@),
        {
            insert_round(segs, batches)
        };
    let run_right = || -> (r: (Vec<ShardSegment<K, V>>, Vec<(usize, Vec<Displaced<K, V>>)>))
        ensures
            round_done(right_segs@, right_batches@, r.0@, r.1@),
        {
            insert_round(right_segs, right_batches)
        };
    let (left, right) = rayon::join(run_left, run_right);
    let (mut after, mut taken) = left;
    let (mut more_after, mut more_taken) = right;
    proof {
        let a = after@ + more_after@;
        let t = taken@ + more_taken@;
        assert forall|m: int| 0 <= m < before.len() implies {
            let r = run(before[m]@, flats(given)[m]);
            &&& (#[trigger] a[m]).wf()
            &&& a[m]@ == (SegmentView { inserted: 0, overflow: Seq::empty(), ..r })
            &&& t[m].0 == r.inserted
            &&& t[m].1@ == r.overflow
        } by {
            if m < mid {
                assert(left_before[m] == before[m]);
                assert(flats(left_given)[m] == flats(given)[m]);
                assert(a[m] == after@[m]);
                assert(t[m] == taken@[m]);
            } else {
                assert(right_before[m - mid] == before[m]);
                assert(flats(right_given)[m - mid] == flats(given)[m]);
                assert(a[m] == more_after@[m - mid]);
                assert(t[m] == more_taken@[m - mid]);
            }
        }
    }
    after.append(&mut more_after);
    taken.append(&mut more_taken);
    (after, taken)
}

/// What bulk construction from the pairs `input` leaves: an array that can be
/// probed, that holds each hash and key of the input once and no other, and that
/// holds under each the value of the last pair of the input that has it.
pub open spec fn built<K, V>(input: Seq<Displaced<K, V>>, g: Seq<Option<Entry<K, V>>>, bits: u32) -> bool {
    &&& placed(g, bits)
    &&& unique(g)
    &&& forall|p: int|
        0 <= p < g.len() && (#[trigger] g[p]) is Some ==> last_val(
            input,
            g[p]->0.hash,
            g[p]->0.key,
        ) == Some(g[p]->0.value)
    &&& forall|t: int| 0 <= t < input.len() ==> !absent(g, (#[trigger] input[t]).hash, input[t].key)
}

/// The shards of the input, one list for each shard.
pub open spec fn shards_of<K, V>(input: Seq<Displaced<K, V>>, shard_bits: u32) -> Seq<
    Seq<Displaced<K, V>>,
> {
    Seq::new(capacity_of(shard_bits) as nat, |m: int| routed(input, shard_bits, m))
}

/// Before the first round, with the array empty and every shard waiting at its own
/// segment, what holds between rounds holds.
pub proof fn lemma_initial<K, V>(
    segs: Seq<SegmentView<K, V>>,
    input: Seq<Displaced<K, V>>,
    bits: u32,
    shard_bits: u32,
)
    requires
        layout_ok(segs, bits, shard_bits),
        forall|m: int|
            0 <= m < segs.len() ==> segment_wf(#[trigger] segs[m]) && segs[m].inserted == 0
                && segs[m].overflow.len() == 0 && all_empty(
                segs[m].slots,
                0,
                segs[m].slots.len() as int,
            ),
        forall|t: int| 0 <= t < input.len() ==> (#[trigger] input[t]).displacement == 0,
        input.len() < capacity_of(bits),
    ensures
        round_inv(segs, shards_of(input, shard_bits), input, bits, shard_bits, 0),
{
    let g = whole(segs, bits, shard_bits);
    let batches = shards_of(input, shard_bits);
    let n = segs.len() as int;
    lemma_whole_covers(segs, bits, shard_bits);
    lemma_pow2_pos(shard_bits as nat);
    assert forall|p: int| 0 <= p < g.len() implies (#[trigger] g[p]) is None by {
        let (m, j) = lemma_locate(segs, bits, shard_bits, p);
        assert(segs[m].slots[j] is None);
    }
    assert forall|m: int, k: int| 0 <= m < n && 0 <= k < batches[m].len() implies item_ok(
        g,
        segs[m],
        #[trigger] batches[m][k],
        0,
    ) && home(batches[m][k].hash, shard_bits) == m && batches[m][k].displacement == 0 by {
        lemma_routed(input, shard_bits, m);
        let it = batches[m][k];
        lemma_home_in_segment(it.hash, bits, shard_bits);
        lemma_home_bound(it.hash, bits);
        assert(start_of(it.hash, 0, bits) == home(it.hash, bits));
    }
    assert forall|m: int| 0 <= m < n implies consistent(#[trigger] batches[m]) by {
        assert forall|a: int, b: int|
            0 <= a < batches[m].len() && 0 <= b < batches[m].len() && (#[trigger] batches[m][a]).hash
                == (#[trigger] batches[m][b]).hash implies batches[m][a].displacement
            == batches[m][b].displacement by {
            assert(item_ok(g, segs[m], batches[m][a], 0) && batches[m][a].displacement == 0);
            assert(item_ok(g, segs[m], batches[m][b], 0) && batches[m][b].displacement == 0);
        }
    }
    assert forall|m: int, k: int| 0 <= m < n && 0 <= k < batches[m].len() implies last_val(
        batches[m],
        (#[trigger] batches[m][k]).hash,
        batches[m][k].key,
    ) == last_val(input, batches[m][k].hash, batches[m][k].key) by {
        lemma_routed(input, shard_bits, m);
    }
    assert forall|t: int| 0 <= t < input.len() implies !absent(
        g,
        (#[trigger] input[t]).hash,
        input[t].key,
    ) || waiting(batches, input[t].hash, input[t].key) by {
        let m = home(input[t].hash, shard_bits);
        lemma_home_bound(input[t].hash, shard_bits);
        lemma_routed(input, shard_bits, m);
        lemma_last_val_some(input, input[t].hash, input[t].key);
        assert(last_val(batches[m], input[t].hash, input[t].key) is Some);
    }
    assert forall|m1: int, k1: int, m2: int, k2: int|
        0 <= m1 < n && 0 <= m2 < n && m1 != m2 && 0 <= k1 < batches[m1].len() && 0 <= k2
            < batches[m2].len() implies (#[trigger] batches[m1][k1]).hash != (
    #[trigger] batches[m2][k2]).hash by {
        assert(item_ok(g, segs[m1], batches[m1][k1], 0) && home(batches[m1][k1].hash, shard_bits) == m1);
        assert(item_ok(g, segs[m2], batches[m2][k2], 0) && home(batches[m2][k2].hash, shard_bits) == m2);
    }
    assert forall|m: int| 0 <= m < n implies #[trigger] occ_counts(segs)[m] == 0 by {
        lemma_occupied_none(segs[m].slots, 0, segs[m].slots.len() as int);
    }
    lemma_sum_constant(occ_counts(segs), 0);
    lemma_routed_total(input, shard_bits);
    assert(lens(batches) == Seq::new(
        capacity_of(shard_bits) as nat,
        |m: int| routed(input, shard_bits, m).len() as int,
    ));
}

/// When no pair waits any more, the array is built.
pub proof fn lemma_final<K, V>(
    segs: Seq<SegmentView<K, V>>,
    batches: Seq<Seq<Displaced<K, V>>>,
    input: Seq<Displaced<K, V>>,
    bits: u32,
    shard_bits: u32,
    md: int,
)
    requires
        round_inv(segs, batches, input, bits, shard_bits, md),
        forall|m: int| 0 <= m < batches.len() ==> (#[trigger] batches[m]).len() == 0,
    ensures
        built(input, whole(segs, bits, shard_bits), bits),
{
    let g = whole(segs, bits, shard_bits);
    assert forall|t: int| 0 <= t < input.len() implies !absent(
        g,
        (#[trigger] input[t]).hash,
        input[t].key,
    ) by {
        if waiting(batches, input[t].hash, input[t].key) {
            let m = choose|m: int|
                0 <= m < batches.len() && last_val(#[trigger] batches[m], input[t].hash, input[t].key)
                    is Some;
            assert(batches[m].len() == 0);
        }
    }
}

/// The smallest array that holds `total` pairs with a tenth of its buckets to
/// spare, and that is no shorter than 32 buckets nor than one bucket for each shard:
/// the number of bits of its length.
pub fn bits_for(total: usize, shard_bits: u32) -> (bits: u32)
    requires
        total <= usize::MAX / 8,
        shard_bits <= MAX_SHARD_BITS,
    ensures
        valid_bits(bits),
        shard_bits <= bits,
        5 <= bits,
        total + total / 10 < capacity_of(bits),
        bits > 5 && bits > shard_bits ==> capacity_of((bits - 1) as u32) <= total + total / 10,
{
    let needed = total + total / 10 + 1;
    let mut bits: u32 = 5;
    let mut cap: usize = 32;
    proof {
        lemma2_to64();
        lemma2_to64_rest();
    }
    while cap < needed
        invariant
            cap == pow2(bits as nat),
            5 <= bits <= 62,
            32 <= cap,
            needed == total + total / 10 + 1,
            total <= usize::MAX / 8,
            cap < 2 * needed || bits <= 16,
            bits > 5 ==> pow2((bits - 1) as nat) < needed,
        decreases 63 - bits,
    {
        proof {
            lemma_pow2_unfold((bits + 1) as nat);
            lemma2_to64_rest();
            if bits + 1 >= 63 {
                if bits + 1 > 63 {
                    lemma_pow2_strictly_increases(63, (bits + 1) as nat);
                }
            }
        }
        cap = cap * 2;
        bits = bits + 1;
    }
    while bits < shard_bits
        invariant
            cap == pow2(bits as nat),
            5 <= bits <= 62,
            needed <= cap,
            shard_bits <= MAX_SHARD_BITS,
            cap < 2 * needed || bits <= 16,
            bits > 5 && bits > shard_bits ==> pow2((bits - 1) as nat) < needed,
        decreases shard_bits - bits,
    {
        proof {
            lemma_pow2_unfold((bits + 1) as nat);
            lemma2_to64();
            if bits + 1 < 16 {
                lemma_pow2_strictly_increases((bits + 1) as nat, 16);
            }
        }
        cap = cap * 2;
        bits = bits + 1;
    }
    proof {
        lemma2_to64();
        if bits < 16 {
            lemma_pow2_strictly_increases(bits as nat, 16);
        }
    }
    bits
}

/// The overflow lists of what the segments handed out.
pub open spec fn lists<K, V>(taken: Seq<(usize, Vec<Displaced<K, V>>)>) -> Seq<Seq<Displaced<K, V>>> {
    Seq::new(taken.len(), |m: int| taken[m].1@)
}

/// The counts of what the segments handed out.
pub open spec fn counts<K, V>(taken: Seq<(usize, Vec<Displaced<K, V>>)>) -> Seq<int> {
    Seq::new(taken.len(), |m: int| taken[m].0 as int)
}

/// Cuts an array of `2^bits` buckets into `2^shard_bits` segments of equal length,
/// each with the buckets of its part of the array. No bucket is in two segments and
/// none is left out.
pub fn into_segments<K: TableKey, V>(table: RawTable<K, V>, bits: u32, shard_bits: u32) -> (segs: Vec<
    ShardSegment<K, V>,
>)
    requires
        valid_bits(bits),
        shard_bits <= bits,
        table@.len() == capacity_of(bits),
    ensures
        covers(table@, views(segs@), bits, shard_bits),
        forall|m: int|
            0 <= m < segs@.len() ==> (#[trigger] segs@[m]).wf() && segs@[m]@.inserted == 0
                && segs@[m]@.overflow.len() == 0,
{
    let ghost g = table@;
    let mut rest = table.into_buckets();
    proof {
        lemma_valid_bits_smaller(bits, shard_bits);
        lemma_valid_bits_smaller(bits, (bits - shard_bits) as u32);
    }
    let len = capacity(bits - shard_bits);
    let num = capacity(shard_bits);
    proof {
        lemma_pow2_adds(shard_bits as nat, (bits - shard_bits) as nat);
        lemma_pow2_pos((bits - shard_bits) as nat);
        lemma_pow2_pos(shard_bits as nat);
        lemma_segment_bases(0, bits, shard_bits);
    }
    // The segments from the last to the first.
    let mut back: Vec<ShardSegment<K, V>> = Vec::new();
    let mut m: usize = num;
    while m > 0
        invariant
            valid_bits(bits),
            shard_bits <= bits,
            len == capacity_of((bits - shard_bits) as u32),
            num == capacity_of(shard_bits),
            g.len() == capacity_of(bits),
            0 <= m <= num,
            rest@ == g.subrange(0, segment_base(m as int, bits, shard_bits)),
            0 <= segment_base(m as int, bits, shard_bits) <= capacity_of(bits),
            back@.len() == num - m,
            forall|i: int|
                0 <= i < back@.len() ==> {
                    let s = #[trigger] back@[i];
                    &&& s.wf()
                    &&& s@.inserted == 0
                    &&& s@.overflow.len() == 0
                    &&& s@.bits == bits
                    &&& s@.base == segment_base(num - 1 - i, bits, shard_bits)
                    &&& s@.slots == g.subrange(
                        segment_base(num - 1 - i, bits, shard_bits),
                        segment_base(num - i, bits, shard_bits),
                    )
                },
        decreases m,
    {
        proof {
            lemma_segment_bases(m as int - 1, bits, shard_bits);
        }
        let base = rest.len() - len;
        let slots = rest.split_off(base);
        proof {
            crate::table::lemma_occupied_members(slots@, 0, slots@.len() as int);
        }
        let seg = ShardSegment::new(base, bits, slots);
        let ghost before = back@;
        back.push(seg);
        m = m - 1;
        proof {
            assert forall|i: int| 0 <= i < back@.len() implies {
                let s = #[trigger] back@[i];
                &&& s.wf()
                &&& s@.inserted == 0
                &&& s@.overflow.len() == 0
                &&& s@.bits == bits
                &&& s@.base == segment_base(num - 1 - i, bits, shard_bits)
                &&& s@.slots == g.subrange(
                    segment_base(num - 1 - i, bits, shard_bits),
                    segment_base(num - i, bits, shard_bits),
                )
            } by {
                if i < before.len() {
                    assert(back@[i] == before[i]);
                }
            }
        }
    }
    // The segments from the first to the last.
    let mut segs: Vec<ShardSegment<K, V>> = Vec::new();
    let ghost turned = back@;
    while back.len() > 0
        invariant
            back@.len() + segs@.len() == num,
            back@ == turned.subrange(0, back@.len() as int),
            turned.len() == num,
            forall|i: int| 0 <= i < segs@.len() ==> #[trigger] segs@[i] == turned[num - 1 - i],
        decreases back@.len(),
    {
        let seg = back.pop().unwrap();
        segs.push(seg);
    }
    proof {
        let v = views(segs@);
        assert forall|i: int| 0 <= i < v.len() implies (#[trigger] v[i]).bits == bits && v[i].base
            == segment_base(i, bits, shard_bits) && v[i].slots.len() == capacity_of(
            (bits - shard_bits) as u32,
        ) && v[i].slots == g.subrange(
            segment_base(i, bits, shard_bits),
            segment_base(i + 1, bits, shard_bits),
        ) by {
            assert(segs@[i] == turned[num - 1 - i]);
            lemma_segment_bases(i, bits, shard_bits);
        }
        assert forall|i: int, j: int| 0 <= i < v.len() && 0 <= j < v[i].slots.len() implies g[v[i].base
            + j] == #[trigger] v[i].slots[j] by {
            lemma_segment_bases(i, bits, shard_bits);
        }
        assert forall|i: int| 0 <= i < segs@.len() implies (#[trigger] segs@[i]).wf() && segs@[i]@.inserted
            == 0 && segs@[i]@.overflow.len() == 0 by {
            assert(segs@[i] == turned[num - 1 - i]);
        }
    }
    segs
}

/// Lays the segments end to end again.
pub fn from_segments<K: TableKey, V>(segs: Vec<ShardSegment<K, V>>, bits: u32, shard_bits: u32) -> (buckets:
    Vec<Option<Entry<K, V>>>)
    requires
        layout_ok(views(segs@), bits, shard_bits),
    ensures
        buckets@ == whole(views(segs@), bits, shard_bits),
{
    let ghost all = segs@;
    let ghost v = views(all);
    let mut buckets: Vec<Option<Entry<K, V>>> = Vec::new();
    proof {
        lemma_pow2_pos(shard_bits as nat);
        lemma_segment_bases(0, bits, shard_bits);
        lemma_whole_covers(v, bits, shard_bits);
    }
    for seg in it: segs.into_iter()
        invariant
            it.seq() == all,
            v == views(all),
            layout_ok(v, bits, shard_bits),
            covers(whole(v, bits, shard_bits), v, bits, shard_bits),
            buckets@.len() == segment_base(it.index() as int, bits, shard_bits),
            buckets@ == whole(v, bits, shard_bits).subrange(0, buckets@.len() as int),
            0 <= segment_base(it.index() as int, bits, shard_bits) <= capacity_of(bits),
    {
        let ghost m = it.index() as int;
        let ghost before = buckets@;
        proof {
            lemma_segment_bases(m, bits, shard_bits);
            assert(v[m] == seg@);
        }
        let mut slots = seg.into_slots();
        buckets.append(&mut slots);
        proof {
            let g = whole(v, bits, shard_bits);
            assert forall|p: int| 0 <= p < buckets@.len() implies buckets@[p] == g[p] by {
                if p >= before.len() {
                    assert(g[v[m].base + (p - before.len())] == v[m].slots[p - before.len()]);
                }
            }
            assert(buckets@ == g.subrange(0, buckets@.len() as int));
        }
    }
    proof {
        lemma_segment_bases(0, bits, shard_bits);
        assert(buckets@ == whole(v, bits, shard_bits));
    }
    buckets
}

/// Whether any segment handed out a pair as overflow.
fn has_overflow<K, V>(taken: &Vec<(usize, Vec<Displaced<K, V>>)>) -> (b: bool)
    ensures
        b == exists|m: int| 0 <= m < taken@.len() && (#[trigger] lists(taken@)[m]).len() > 0,
{
    let mut m: usize = 0;
    while m < taken.len()
        invariant
            m <= taken@.len(),
            forall|i: int| 0 <= i < m ==> (#[trigger] lists(taken@)[i]).len() == 0,
        decreases taken@.len() - m,
    {
        if taken[m].1.len() > 0 {
            assert(lists(taken@)[m as int].len() > 0);
            return true;
        }
        m += 1;
    }
    false
}

/// The sum of the counts that the segments handed out.
fn count_inserted<K, V>(taken: &Vec<(usize, Vec<Displaced<K, V>>)>) -> (total: usize)
    requires
        sum(counts(taken@)) <= usize::MAX,
    ensures
        total == sum(counts(taken@)),
{
    let mut total: usize = 0;
    let mut m: usize = 0;
    let ghost all = counts(taken@);
    proof {
        assert(all.take(0) == Seq::<int>::empty());
        lemma_sum_prefix(all, 0);
    }
    while m < taken.len()
        invariant
            m <= taken@.len(),
            all == counts(taken@),
            total == sum(all.take(m as int)),
            sum(all) <= usize::MAX,
        decreases taken@.len() - m,
    {
        proof {
            assert(all.take(m as int + 1).drop_last() == all.take(m as int));
            assert(all.take(m as int + 1).last() == taken@[m as int].0);
            lemma_sum_prefix(all, m as int + 1);
        }
        total = total + taken[m].0;
        m += 1;
    }
    proof {
        assert(all.take(all.len() as int) == all);
    }
    total
}

/// The sum of the first numbers of a list of numbers that are not negative is at
/// most the sum of all.
pub proof fn lemma_sum_prefix(a: Seq<int>, i: int)
    requires
        0 <= i <= a.len(),
        forall|k: int| 0 <= k < a.len() ==> #[trigger] a[k] >= 0,
    ensures
        0 <= sum(a.take(i)) <= sum(a),
    decreases a.len() - i,
{
    if i == a.len() {
        assert(a.take(i) == a);
        lemma_sum_bounds(a);
    } else {
        lemma_sum_prefix(a, i + 1);
        assert(a.take(i + 1).drop_last() == a.take(i));
        lemma_sum_bounds(a.take(i));
    }
}

/// Makes of each overflow list the batch of one chunk that a segment takes in.
fn into_batches<K, V>(taken: Vec<(usize, Vec<Displaced<K, V>>)>) -> (batches: Vec<
    Vec<Vec<Displaced<K, V>>>,
>)
    ensures
        flats(batches@) == lists(taken@),
{
    let ghost all = taken@;
    let mut batches: Vec<Vec<Vec<Displaced<K, V>>>> = Vec::new();
    for pair in it: taken.into_iter()
        invariant
            it.seq() == all,
            batches@.len() == it.index(),
            forall|i: int| 0 <= i < it.index() ==> #[trigger] flats(batches@)[i] == all[i].1@,
    {
        let ghost before = batches@;
        let (_, chunk) = pair;
        let mut list: Vec<Vec<Displaced<K, V>>> = Vec::new();
        list.push(chunk);
        proof {
            assert(list@.drop_last() == Seq::<Vec<Displaced<K, V>>>::empty());
            assert(flat(list@) == flat(list@.drop_last()) + list@.last()@);
            assert(flat(Seq::<Vec<Displaced<K, V>>>::empty()) + chunk@ == chunk@);
        }
        batches.push(list);
        proof {
            assert forall|i: int| 0 <= i < it.index() + 1 implies #[trigger] flats(batches@)[i]
                == all[i].1@ by {
                if i < it.index() {
                    assert(flats(before)[i] == all[i].1@);
                    assert(batches@[i] == before[i]);
                }
            }
        }
    }
    proof {
        assert(flats(batches@) =~= lists(all));
    }
    batches
}

/// A table that was built in bulk, and how the building went.
pub struct Built<K, V> {
    /// The table.
    pub table: RawTable<K, V>,
    /// The table has `2^bits` buckets.
    pub bits: u32,
    /// How often overflow had to be moved on to the next segment.
    pub rounds: usize,
}

/// Builds a table from the pairs, with `2^shard_bits` shards worked on side by
/// side and with room for `spare` pairs more. Of the pairs with the same key the
/// last in the list gives the value. The overflow of a segment is offered to the
/// next segment, round after round; there are never more rounds than shards.
pub fn build<K: TableKey + Send, V: Send, S: HashStrategy + Sync>(
    items: Vec<(K, V)>,
    strategy: &S,
    shard_bits: u32,
    spare: usize,
) -> (r: Built<K, V>)
    requires
        items@.len() + spare <= usize::MAX / 8,
        shard_bits <= MAX_SHARD_BITS,
    ensures
        valid_bits(r.bits),
        r.table@.len() == capacity_of(r.bits),
        built(hashed(items@, *strategy), r.table@, r.bits),
        r.table.counted(),
        r.table.spec_size() <= items@.len(),
        items@.len() + spare + (items@.len() + spare) / 10 < capacity_of(r.bits),
        5 <= r.bits,
        shard_bits <= r.bits,
        r.bits > 5 && r.bits > shard_bits ==> capacity_of((r.bits - 1) as u32) <= items@.len() + spare
            + (items@.len() + spare) / 10,
        r.rounds <= capacity_of(shard_bits),
{
    let ghost input = hashed(items@, *strategy);
    let total_given = items.len();
    proof {
        lemma2_to64();
        lemma_pow2_strictly_increases(shard_bits as nat, 17);
        assert(valid_bits(shard_bits));
        lemma_routed_total(input, shard_bits);
    }
    // Group the pairs by shard.
    let sharded_items = shard_items(items, strategy, shard_bits, rayon::current_num_threads());
    // Allocate enough table space. Less is needed if keys come twice.
    let mut total: usize = 0;
    let mut m: usize = 0;
    let ghost sizes = lens(flats(sharded_items@));
    proof {
        assert(flats(sharded_items@) =~= shards_of(input, shard_bits));
        assert(sizes == Seq::new(
            capacity_of(shard_bits) as nat,
            |m: int| routed(input, shard_bits, m).len() as int,
        ));
        lemma_sum_prefix(sizes, 0);
        assert(sizes.take(0) == Seq::<int>::empty());
    }
    while m < sharded_items.len()
        invariant
            m <= sharded_items@.len(),
            sizes == lens(flats(sharded_items@)),
            total == sum(sizes.take(m as int)),
            sum(sizes) == total_given,
        decreases sharded_items@.len() - m,
    {
        let list = &sharded_items[m];
        let mut c: usize = 0;
        let ghost before = total;
        proof {
            assert(sizes.take(m as int + 1).drop_last() == sizes.take(m as int));
            assert(sizes.take(m as int + 1).last() == flat(list@).len());
            lemma_sum_prefix(sizes, m as int + 1);
            assert(list@.take(0) == Seq::<Vec<Displaced<K, V>>>::empty());
        }
        while c < list.len()
            invariant
                c <= list@.len(),
                total == before + flat(list@.take(c as int)).len(),
                before + flat(list@).len() <= usize::MAX,
            decreases list@.len() - c,
        {
            proof {
                assert(list@.take(c as int + 1).drop_last() == list@.take(c as int));
                assert(list@ == list@.take(c as int + 1) + list@.skip(c as int + 1));
                lemma_flat_concat(list@.take(c as int + 1), list@.skip(c as int + 1));
            }
            total = total + list[c].len();
            c += 1;
        }
        proof {
            assert(list@.take(list@.len() as int) == list@);
        }
        m += 1;
    }
    proof {
        assert(sizes.take(sizes.len() as int) == sizes);
    }
    let bits = bits_for(total + spare, shard_bits);
    let table: RawTable<K, V> = RawTable::new(capacity(bits));
    // Insert each shard into its own segment.
    let segments = into_segments(table, bits, shard_bits);
    proof {
        let v = views(segments@);
        assert forall|m: int| 0 <= m < v.len() implies segment_wf(#[trigger] v[m]) && v[m].inserted
            == 0 && v[m].overflow.len() == 0 && all_empty(v[m].slots, 0, v[m].slots.len() as int) by {
            assert(segments@[m].wf());
            assert forall|j: int| 0 <= j < v[m].slots.len() implies (#[trigger] v[m].slots[j]) is None by {
                lemma_segments_disjoint(v, bits, shard_bits, m, j, m, j);
            }
        }
        assert forall|t: int| 0 <= t < input.len() implies (#[trigger] input[t]).displacement == 0 by {}
        lemma_initial(v, input, bits, shard_bits);
        assert(round_ready(segments@, sharded_items@)) by {
            assert forall|m: int, k: int|
                0 <= m < segments@.len() && 0 <= k < flats(sharded_items@)[m].len() implies fits(
                segments@[m]@,
                #[trigger] flats(sharded_items@)[m][k],
            ) by {
                assert(item_ok(
                    whole(v, bits, shard_bits),
                    v[m],
                    shards_of(input, shard_bits)[m][k],
                    0,
                ));
            }
        }
    }
    let ghost before = views(segments@);
    let ghost given = flats(sharded_items@);
    let (mut segments, mut overflow_items) = insert_round(segments, sharded_items);
    let ghost mut md: int = 1;
    proof {
        let results = Seq::new(before.len(), |m: int| run(before[m], given[m]));
        lemma_round(before, given, results, input, bits, shard_bits, 0);
        lemma_round_counts(before, given, results, input, bits, shard_bits, 0);
        assert forall|m: int| 0 <= m < before.len() implies #[trigger] lists(overflow_items@)[m]
            == overflows(results)[m] by {
            assert(segments@[m].wf());
        }
        assert forall|m: int| 0 <= m < before.len() implies #[trigger] counts(overflow_items@)[m]
            == inserted_counts(results)[m] by {
            assert(segments@[m].wf());
        }
        assert(views(segments@) =~= cleared(results));
        assert(lists(overflow_items@) =~= overflows(results));
        assert(counts(overflow_items@) =~= inserted_counts(results));
        assert forall|m: int| 0 <= m < before.len() implies #[trigger] occ_counts(before)[m] == 0 by {
            lemma_occupied_none(before[m].slots, 0, before[m].slots.len() as int);
        }
        lemma_sum_constant(occ_counts(before), 0);
        lemma_sum_bounds(lens(rotated(lists(overflow_items@))));
    }
    let mut size: usize = count_inserted(&overflow_items);
    let mut rounds: usize = 0;
    // Offer the overflow to the next segment until there is none.
    while has_overflow(&overflow_items)
        invariant
            valid_bits(bits),
            shard_bits <= bits,
            input == hashed(items@, *strategy),
            input.len() == total_given,
            round_inv(
                views(segments@),
                rotated(lists(overflow_items@)),
                input,
                bits,
                shard_bits,
                md,
            ),
            overflow_items@.len() == segments@.len(),
            forall|m: int| 0 <= m < segments@.len() ==> (#[trigger] segments@[m]).wf(),
            size == sum(occ_counts(views(segments@))),
            md == 1 + rounds * capacity_of((bits - shard_bits) as u32),
            rounds <= capacity_of(shard_bits),
        decreases capacity_of(shard_bits) - rounds,
    {
        let ghost len = capacity_of((bits - shard_bits) as u32);
        let ghost num = capacity_of(shard_bits);
        let ghost before = views(segments@);
        let ghost old_lists = lists(overflow_items@);
        proof {
            lemma_valid_bits_smaller(bits, shard_bits);
            lemma_pow2_adds(shard_bits as nat, (bits - shard_bits) as nat);
            lemma_pow2_pos((bits - shard_bits) as nat);
            // A pair waits, and it has been displaced by less than the array is long.
            let w = choose|w: int| 0 <= w < overflow_items@.len() && (#[trigger] old_lists[w]).len() > 0;
            let a = if w == num - 1 {
                0
            } else {
                w + 1
            };
            let r = rotated(old_lists);
            assert(r[a] == old_lists[w]) by {
                if a == 0 {
                    assert(r[0] == old_lists.last());
                } else {
                    assert(r[a] == old_lists.drop_last()[a - 1]);
                }
            }
            assert(item_ok(whole(before, bits, shard_bits), before[a], r[a][0], md));
            assert(md < capacity_of(bits));
            assert(rounds < num) by (nonlinear_arith)
                requires
                    1 + rounds * len < num * len,
                    len > 0,
            ;
        }
        // Move the overflow on to the next segment.
        let wrap = overflow_items.pop().unwrap();
        overflow_items.insert(0, wrap);
        proof {
            assert(lists(overflow_items@) =~= rotated(old_lists));
        }
        let batches = into_batches(overflow_items);
        proof {
            assert(round_ready(segments@, batches@)) by {
                assert forall|m: int, k: int|
                    0 <= m < segments@.len() && 0 <= k < flats(batches@)[m].len() implies fits(
                    segments@[m]@,
                    #[trigger] flats(batches@)[m][k],
                ) by {
                    assert(item_ok(
                        whole(before, bits, shard_bits),
                        before[m],
                        rotated(old_lists)[m][k],
                        md,
                    ));
                }
            }
        }
        let ghost given = flats(batches@);
        let (next_segments, new_overflow) = insert_round(segments, batches);
        segments = next_segments;
        overflow_items = new_overflow;
        proof {
            let results = Seq::new(before.len(), |m: int| run(before[m], given[m]));
            lemma_round(before, given, results, input, bits, shard_bits, md);
            lemma_round_counts(before, given, results, input, bits, shard_bits, md);
            assert forall|m: int| 0 <= m < before.len() implies #[trigger] lists(
                overflow_items@,
            )[m] == overflows(results)[m] by {
                assert(segments@[m].wf());
            }
            assert forall|m: int| 0 <= m < before.len() implies #[trigger] counts(
                overflow_items@,
            )[m] == inserted_counts(results)[m] by {
                assert(segments@[m].wf());
            }
            assert(views(segments@) =~= cleared(results));
            assert(lists(overflow_items@) =~= overflows(results));
            assert(counts(overflow_items@) =~= inserted_counts(results));
            lemma_sum_bounds(lens(rotated(lists(overflow_items@))));
            md = md + len;
            assert((rounds + 1) * len == rounds * len + len) by (nonlinear_arith);
        }
        let extra_size = count_inserted(&overflow_items);
        size = size + extra_size;
        rounds = rounds + 1;
    }
    proof {
        let v = views(segments@);
        let waiting_lists = rotated(lists(overflow_items@));
        assert forall|m: int| 0 <= m < waiting_lists.len() implies (#[trigger] waiting_lists[m]).len()
            == 0 by {
            let l = lists(overflow_items@);
            if m == 0 {
                assert(waiting_lists[0] == l.last());
                assert(l[l.len() - 1].len() == 0);
            } else {
                assert(waiting_lists[m] == l.drop_last()[m - 1]);
                assert(l[m - 1].len() == 0);
            }
        }
        lemma_final(v, waiting_lists, input, bits, shard_bits, md);
        lemma_whole_covers(v, bits, shard_bits);
        lemma_pow2_pos(shard_bits as nat);
        lemma_occupied_sum(whole(v, bits, shard_bits), v, bits, shard_bits, v.len() as int);
        lemma_segment_bases(0, bits, shard_bits);
        assert(Seq::new(
            v.len(),
            |m: int| occupied(v[m].slots, 0, v[m].slots.len() as int).len() as int,
        ) == occ_counts(v));
        lemma_sum_bounds(lens(waiting_lists));
    }
    // Only now is the aggregated size set.
    let buckets = from_segments(segments, bits, shard_bits);
    let mut table = RawTable::from_buckets(buckets, 0);
    table.set_size(size);
    Built { table, bits, rounds }
}

} // verus!
