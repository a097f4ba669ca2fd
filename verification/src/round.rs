//! One round of bulk insertion: every segment takes in its batch, and what runs
//! over the end of a segment becomes the batch of the next segment.
use crate::batch::{
    absent, advanced, arrived, batch_result, came_from, consistent, from_of, last_val, lemma_batch,
    lemma_last_val_some, passed_by, slot_is, sourced, unique,
};
use crate::layout::{
    in_run, layout_ok, lemma_exists_empty, lemma_locate, lemma_occupied_sum,
    lemma_segments_disjoint, lemma_sum_add, lemma_sum_bounds, lemma_sum_front, lemma_sum_le,
    lemma_whole_covers, pending_ok, placed, sum, whole,
};
use crate::segment::{
    capacity_of, entry_is, fits, home, lemma_home_bound, lemma_segment_bases, run, segment_base,
    segment_wf, start_of, Displaced, SegmentView,
};
use crate::table::{occupied, Entry};
use vstd::arithmetic::power2::lemma_pow2_pos;
use vstd::prelude::*;

verus! {

/// The lists moved on by one place, the last list coming first.
pub open spec fn rotated<T>(o: Seq<Seq<T>>) -> Seq<Seq<T>> {
    if o.len() == 0 {
        o
    } else {
        seq![o.last()] + o.drop_last()
    }
}

/// The lengths of the lists.
pub open spec fn lens<T>(b: Seq<Seq<T>>) -> Seq<int> {
    Seq::new(b.len(), |m: int| b[m].len() as int)
}

/// The numbers of entries of the segments.
pub open spec fn occ_counts<K, V>(segs: Seq<SegmentView<K, V>>) -> Seq<int> {
    Seq::new(
        segs.len(),
        |m: int| occupied(segs[m].slots, 0, segs[m].slots.len() as int).len() as int,
    )
}

/// The overflow lists of the segments.
pub open spec fn overflows<K, V>(segs: Seq<SegmentView<K, V>>) -> Seq<Seq<Displaced<K, V>>> {
    Seq::new(segs.len(), |m: int| segs[m].overflow)
}

/// The numbers of buckets that the segments filled.
pub open spec fn inserted_counts<K, V>(segs: Seq<SegmentView<K, V>>) -> Seq<int> {
    Seq::new(segs.len(), |m: int| segs[m].inserted as int)
}

/// The segments with their counts and overflow taken away.
pub open spec fn cleared<K, V>(segs: Seq<SegmentView<K, V>>) -> Seq<SegmentView<K, V>> {
    Seq::new(
        segs.len(),
        |m: int|
            SegmentView {
                base: segs[m].base,
                bits: segs[m].bits,
                slots: segs[m].slots,
                inserted: 0,
                overflow: Seq::empty(),
            },
    )
}

/// What holds of a pair that waits to be offered to a segment: it starts inside
/// the segment, its way so far is occupied, and its hash and key is in no bucket.
pub open spec fn item_ok<K, V>(
    g: Seq<Option<Entry<K, V>>>,
    seg: SegmentView<K, V>,
    it: Displaced<K, V>,
    min_displacement: int,
) -> bool {
    &&& fits(seg, it)
    &&& pending_ok(g, seg.bits, it)
    &&& absent(g, it.hash, it.key)
    &&& it.displacement >= min_displacement
    &&& min_displacement >= 1 ==> start_of(it.hash, it.displacement as int, seg.bits) == seg.base
}

/// Some batch holds a pair with this hash and key.
pub open spec fn waiting<K, V>(batches: Seq<Seq<Displaced<K, V>>>, hash: u64, key: K) -> bool {
    exists|m: int| 0 <= m < batches.len() && last_val(#[trigger] batches[m], hash, key) is Some
}

/// What holds between two rounds of a bulk insertion of the pairs `input`: the
/// array can be probed, holds no hash and key twice and holds for each the value of
/// the last pair of `input` that has landed; the pairs that wait are in the batch of
/// the segment where they go on, in their order in `input`.
pub open spec fn round_inv<K, V>(
    segs: Seq<SegmentView<K, V>>,
    batches: Seq<Seq<Displaced<K, V>>>,
    input: Seq<Displaced<K, V>>,
    bits: u32,
    shard_bits: u32,
    min_displacement: int,
) -> bool {
    let g = whole(segs, bits, shard_bits);
    &&& layout_ok(segs, bits, shard_bits)
    &&& batches.len() == segs.len()
    &&& forall|m: int|
        0 <= m < segs.len() ==> segment_wf(#[trigger] segs[m]) && segs[m].inserted == 0
            && segs[m].overflow.len() == 0
    &&& placed(g, bits)
    &&& unique(g)
    &&& forall|m: int, k: int|
        0 <= m < segs.len() && 0 <= k < batches[m].len() ==> item_ok(
            g,
            segs[m],
            #[trigger] batches[m][k],
            min_displacement,
        )
    &&& forall|m1: int, k1: int, m2: int, k2: int|
        0 <= m1 < segs.len() && 0 <= m2 < segs.len() && m1 != m2 && 0 <= k1 < batches[m1].len()
            && 0 <= k2 < batches[m2].len() ==> (#[trigger] batches[m1][k1]).hash != (
        #[trigger] batches[m2][k2]).hash
    &&& forall|m: int| 0 <= m < segs.len() ==> consistent(#[trigger] batches[m])
    &&& forall|p: int|
        0 <= p < g.len() && (#[trigger] g[p]) is Some ==> last_val(
            input,
            g[p]->0.hash,
            g[p]->0.key,
        ) == Some(g[p]->0.value)
    &&& forall|m: int, k: int|
        0 <= m < segs.len() && 0 <= k < batches[m].len() ==> last_val(
            batches[m],
            (#[trigger] batches[m][k]).hash,
            batches[m][k].key,
        ) == last_val(input, batches[m][k].hash, batches[m][k].key)
    &&& forall|t: int|
        0 <= t < input.len() ==> !absent(g, (#[trigger] input[t]).hash, input[t].key) || waiting(
            batches,
            input[t].hash,
            input[t].key,
        )
    &&& sum(occ_counts(segs)) + sum(lens(batches)) <= input.len()
    &&& input.len() < capacity_of(bits)
}

/// The segments after each took in its batch.
pub open spec fn round_results<K, V>(
    segs: Seq<SegmentView<K, V>>,
    batches: Seq<Seq<Displaced<K, V>>>,
    results: Seq<SegmentView<K, V>>,
) -> bool {
    &&& results.len() == segs.len()
    &&& forall|m: int| 0 <= m < segs.len() ==> #[trigger] results[m] == run(segs[m], batches[m])
}

/// Between rounds, a segment and its batch are ready for each other, so that
/// `batch_result` holds of what the segment becomes.
pub proof fn lemma_round_local<K, V>(
    segs: Seq<SegmentView<K, V>>,
    batches: Seq<Seq<Displaced<K, V>>>,
    results: Seq<SegmentView<K, V>>,
    input: Seq<Displaced<K, V>>,
    bits: u32,
    shard_bits: u32,
    md: int,
)
    requires
        round_inv(segs, batches, input, bits, shard_bits, md),
        round_results(segs, batches, results),
    ensures
        forall|m: int|
            0 <= m < segs.len() ==> batch_result(segs[m], batches[m], #[trigger] results[m])
                && segment_wf(results[m]),
        layout_ok(cleared(results), bits, shard_bits),
{
    let g = whole(segs, bits, shard_bits);
    lemma_whole_covers(segs, bits, shard_bits);
    assert forall|m: int| 0 <= m < segs.len() implies batch_result(
        segs[m],
        batches[m],
        #[trigger] results[m],
    ) && segment_wf(results[m]) by {
        let v = segs[m];
        let items = batches[m];
        assert(segment_wf(v));
        assert(unique(v.slots)) by {
            assert forall|a: int, b: int|
                0 <= a < v.slots.len() && 0 <= b < v.slots.len() && a != b && (
                #[trigger] v.slots[a]) is Some && (#[trigger] v.slots[b]) is Some implies !entry_is(
                v.slots[a]->0,
                v.slots[b]->0.hash,
                v.slots[b]->0.key,
            ) by {
                lemma_segments_disjoint(segs, bits, shard_bits, m, a, m, b);
                assert(g[v.base + a] == v.slots[a]);
                assert(g[v.base + b] == v.slots[b]);
            }
        }
        assert forall|t: int| 0 <= t < items.len() implies fits(v, #[trigger] items[t]) by {
            assert(item_ok(g, segs[m], batches[m][t], md));
        }
        assert forall|t: int| 0 <= t < items.len() implies absent(
            v.slots,
            (#[trigger] items[t]).hash,
            items[t].key,
        ) by {
            assert(item_ok(g, segs[m], batches[m][t], md));
            assert forall|j: int| !slot_is(v.slots, j, items[t].hash, items[t].key) by {
                if slot_is(v.slots, j, items[t].hash, items[t].key) {
                    lemma_segments_disjoint(segs, bits, shard_bits, m, j, m, j);
                    assert(g[v.base + j] == v.slots[j]);
                    assert(slot_is(g, v.base + j, items[t].hash, items[t].key));
                }
            }
        }
        assert(consistent(batches[m]));
        lemma_batch(v, items);
    }
    assert(layout_ok(cleared(results), bits, shard_bits)) by {
        assert forall|m: int| 0 <= m < cleared(results).len() implies (#[trigger] cleared(
            results,
        )[m]).bits == bits && cleared(results)[m].base == segment_base(m, bits, shard_bits)
            && cleared(results)[m].slots.len() == capacity_of((bits - shard_bits) as u32) by {
            assert(batch_result(segs[m], batches[m], results[m]));
            assert(segs[m].bits == bits);
        }
    }
}

/// A round neither loses nor makes up a pair: what the array gains is what the
/// segments counted, and entries and waiting pairs together do not grow in number.
pub proof fn lemma_round_counts<K, V>(
    segs: Seq<SegmentView<K, V>>,
    batches: Seq<Seq<Displaced<K, V>>>,
    results: Seq<SegmentView<K, V>>,
    input: Seq<Displaced<K, V>>,
    bits: u32,
    shard_bits: u32,
    md: int,
)
    requires
        round_inv(segs, batches, input, bits, shard_bits, md),
        round_results(segs, batches, results),
    ensures
        sum(occ_counts(cleared(results))) == sum(occ_counts(segs)) + sum(inserted_counts(results)),
        sum(occ_counts(cleared(results))) + sum(lens(rotated(overflows(results)))) <= sum(
            occ_counts(segs),
        ) + sum(lens(batches)),
        sum(inserted_counts(results)) >= 0,
        sum(lens(overflows(results))) == sum(lens(rotated(overflows(results)))),
        sum(lens(overflows(results))) >= 0,
        forall|m: int|
            0 <= m < results.len() ==> (#[trigger] results[m]).overflow.len() <= sum(
                lens(overflows(results)),
            ),
{
    lemma_round_local(segs, batches, results, input, bits, shard_bits, md);
    let a = occ_counts(segs);
    let ins = inserted_counts(results);
    let c = occ_counts(cleared(results));
    let o = lens(overflows(results));
    let b = lens(batches);
    assert forall|m: int| 0 <= m < a.len() implies #[trigger] c[m] == a[m] + ins[m] by {
        assert(batch_result(segs[m], batches[m], results[m]));
    }
    lemma_sum_add(a, ins, c);
    let io = Seq::new(a.len(), |m: int| ins[m] + o[m]);
    lemma_sum_add(ins, o, io);
    assert forall|m: int| 0 <= m < io.len() implies #[trigger] io[m] <= b[m] by {
        assert(batch_result(segs[m], batches[m], results[m]));
    }
    lemma_sum_le(io, b);
    lemma_sum_bounds(ins);
    lemma_sum_bounds(o);
    let os = overflows(results);
    if os.len() > 0 {
        let r = lens(rotated(os));
        assert(r == seq![o.last()] + o.drop_last());
        lemma_sum_front(o.last(), o.drop_last());
    } else {
        assert(lens(rotated(os)) == o);
    }
    assert forall|m: int| 0 <= m < results.len() implies (#[trigger] results[m]).overflow.len()
        <= sum(lens(overflows(results))) by {
        assert(o[m] == results[m].overflow.len());
    }
}

/// Bucket `p` of the whole array, seen in its segment before and after a round.
pub proof fn lemma_round_slot<K, V>(
    segs: Seq<SegmentView<K, V>>,
    batches: Seq<Seq<Displaced<K, V>>>,
    results: Seq<SegmentView<K, V>>,
    input: Seq<Displaced<K, V>>,
    bits: u32,
    shard_bits: u32,
    md: int,
    p: int,
) -> (r: (int, int))
    requires
        round_inv(segs, batches, input, bits, shard_bits, md),
        round_results(segs, batches, results),
        0 <= p < capacity_of(bits),
    ensures
        0 <= r.0 < segs.len(),
        0 <= r.1 < segs[r.0].slots.len(),
        p == segs[r.0].base + r.1,
        whole(segs, bits, shard_bits)[p] == segs[r.0].slots[r.1],
        whole(cleared(results), bits, shard_bits)[p] == results[r.0].slots[r.1],
        batch_result(segs[r.0], batches[r.0], results[r.0]),
        whole(segs, bits, shard_bits)[p] is Some ==> whole(cleared(results), bits, shard_bits)[p]
            is Some && whole(cleared(results), bits, shard_bits)[p]->0.hash == whole(
            segs,
            bits,
            shard_bits,
        )[p]->0.hash && whole(cleared(results), bits, shard_bits)[p]->0.key == whole(
            segs,
            bits,
            shard_bits,
        )[p]->0.key,
{
    lemma_round_local(segs, batches, results, input, bits, shard_bits, md);
    let r = lemma_locate(segs, bits, shard_bits, p);
    assert(batch_result(segs[r.0], batches[r.0], results[r.0]));
    assert(cleared(results)[r.0].slots == results[r.0].slots);
    r
}

/// Going up from `home` and around the end, the way to a bucket `p` at or after
/// `st` is the way to `st` followed by the buckets from `st` to `p`, if `p` is not
/// itself on the way to `st`.
pub proof fn lemma_run_extends(home: int, st: int, p: int, q: int, cap: int)
    requires
        0 <= home < cap,
        0 <= st <= p <= cap,
        0 <= q < cap,
        in_run(home, q, if p == cap { 0 } else { p }),
        p < cap ==> !in_run(home, p, st) || p == st,
        p == cap ==> home != 0 || st == 0,
    ensures
        in_run(home, q, st) || st <= q < p,
{
}

/// After a round the array can still be probed and still holds no hash and key
/// twice, and each entry holds the value of the last pair of the input that landed.
pub proof fn lemma_round_array<K, V>(
    segs: Seq<SegmentView<K, V>>,
    batches: Seq<Seq<Displaced<K, V>>>,
    results: Seq<SegmentView<K, V>>,
    input: Seq<Displaced<K, V>>,
    bits: u32,
    shard_bits: u32,
    md: int,
)
    requires
        round_inv(segs, batches, input, bits, shard_bits, md),
        round_results(segs, batches, results),
    ensures
        placed(whole(cleared(results), bits, shard_bits), bits),
        unique(whole(cleared(results), bits, shard_bits)),
        forall|p: int|
            0 <= p < capacity_of(bits) && (#[trigger] whole(
                cleared(results),
                bits,
                shard_bits,
            )[p]) is Some ==> last_val(
                input,
                whole(cleared(results), bits, shard_bits)[p]->0.hash,
                whole(cleared(results), bits, shard_bits)[p]->0.key,
            ) == Some(whole(cleared(results), bits, shard_bits)[p]->0.value),
{
    let g = whole(segs, bits, shard_bits);
    let g2 = whole(cleared(results), bits, shard_bits);
    let cap = capacity_of(bits);
    lemma_round_local(segs, batches, results, input, bits, shard_bits, md);
    lemma_whole_covers(segs, bits, shard_bits);
    lemma_whole_covers(cleared(results), bits, shard_bits);
    assert forall|p: int, q: int|
        0 <= p < g2.len() && 0 <= q < g2.len() && (#[trigger] g2[p]) is Some && in_run(
            home(g2[p]->0.hash, bits),
            q,
            p,
        ) implies (#[trigger] g2[q]) is Some by {
        let (m, j) = lemma_round_slot(segs, batches, results, input, bits, shard_bits, md, p);
        let (mq, jq) = lemma_round_slot(segs, batches, results, input, bits, shard_bits, md, q);
        lemma_home_bound(g2[p]->0.hash, bits);
        if g[p] is Some {
            assert(g[q] is Some);
        } else {
            assert(arrived(segs[m], results[m].slots, batches[m], j));
            let t = choose|t: int|
                0 <= t < batches[m].len() && came_from(
                    segs[m],
                    results[m].slots,
                    j,
                    #[trigger] batches[m][t],
                );
            let it = batches[m][t];
            assert(item_ok(g, segs[m], it, md));
            let st = start_of(it.hash, it.displacement as int, bits);
            let h = home(it.hash, bits);
            // The bucket was empty before, so it is not on the pair's way so far.
            assert(!in_run(h, p, st));
            lemma_run_extends(h, st, p, q, cap);
            if in_run(h, q, st) {
                assert(g[q] is Some);
            } else {
                assert(st <= q < p);
                lemma_segments_disjoint(segs, bits, shard_bits, m, q - segs[m].base, mq, jq);
                assert(results[m].slots[q - segs[m].base] is Some);
            }
        }
    }
    assert forall|a: int, b: int|
        0 <= a < g2.len() && 0 <= b < g2.len() && a != b && (#[trigger] g2[a]) is Some && (
        #[trigger] g2[b]) is Some implies !entry_is(g2[a]->0, g2[b]->0.hash, g2[b]->0.key) by {
        let (ma, ja) = lemma_round_slot(segs, batches, results, input, bits, shard_bits, md, a);
        let (mb, jb) = lemma_round_slot(segs, batches, results, input, bits, shard_bits, md, b);
        if entry_is(g2[a]->0, g2[b]->0.hash, g2[b]->0.key) {
            if g[a] is Some && g[b] is Some {
                assert(false);
            } else {
                // One of the two is new: its hash and key was in no bucket before, so
                // the other is new as well.
                let (mn, jn, pn, mo, jo, po) = if g[a] is None {
                    (ma, ja, a, mb, jb, b)
                } else {
                    (mb, jb, b, ma, ja, a)
                };
                assert(arrived(segs[mn], results[mn].slots, batches[mn], jn));
                let t = choose|t: int|
                    0 <= t < batches[mn].len() && came_from(
                        segs[mn],
                        results[mn].slots,
                        jn,
                        #[trigger] batches[mn][t],
                    );
                let it = batches[mn][t];
                assert(item_ok(g, segs[mn], it, md));
                if g[po] is Some {
                    assert(slot_is(g, po, it.hash, it.key));
                    assert(false);
                }
                assert(arrived(segs[mo], results[mo].slots, batches[mo], jo));
                let t2 = choose|t2: int|
                    0 <= t2 < batches[mo].len() && came_from(
                        segs[mo],
                        results[mo].slots,
                        jo,
                        #[trigger] batches[mo][t2],
                    );
                assert(batches[mo][t2].hash == batches[mn][t].hash);
                assert(mo == mn);
                lemma_segments_disjoint(segs, bits, shard_bits, ma, ja, mb, jb);
                assert(ja != jb);
                assert(unique(results[mn].slots));
                assert(false);
            }
        }
    }
    assert forall|p: int| 0 <= p < capacity_of(bits) && (#[trigger] g2[p]) is Some implies last_val(
        input,
        g2[p]->0.hash,
        g2[p]->0.key,
    ) == Some(g2[p]->0.value) by {
        let (m, j) = lemma_round_slot(segs, batches, results, input, bits, shard_bits, md, p);
        let x = g2[p]->0;
        assert(results[m].slots[j] is Some);
        lemma_last_val_some(batches[m], x.hash, x.key);
        if last_val(batches[m], x.hash, x.key) is Some {
            let k = choose|k: int|
                0 <= k < batches[m].len() && (#[trigger] batches[m][k]).hash == x.hash
                    && batches[m][k].key == x.key;
            assert(last_val(batches[m], batches[m][k].hash, batches[m][k].key) == last_val(
                input,
                batches[m][k].hash,
                batches[m][k].key,
            ));
        } else {
            assert(results[m].slots[j] == segs[m].slots[j]);
            assert(g[p] is Some);
        }
    }
}

/// The segment whose overflow becomes the batch of segment `a`.
pub open spec fn source_of(a: int, n: int) -> int {
    if a == 0 {
        n - 1
    } else {
        a - 1
    }
}

/// The displacement below which no waiting pair lies after a round.
pub open spec fn next_min(md: int, bits: u32, shard_bits: u32) -> int {
    if md == 0 {
        1
    } else {
        md + capacity_of((bits - shard_bits) as u32)
    }
}

/// While a pair waits, the array has an empty bucket.
pub proof fn lemma_round_empty<K, V>(
    segs: Seq<SegmentView<K, V>>,
    batches: Seq<Seq<Displaced<K, V>>>,
    results: Seq<SegmentView<K, V>>,
    input: Seq<Displaced<K, V>>,
    bits: u32,
    shard_bits: u32,
    md: int,
) -> (e: int)
    requires
        round_inv(segs, batches, input, bits, shard_bits, md),
        round_results(segs, batches, results),
        sum(lens(overflows(results))) >= 1,
    ensures
        0 <= e < capacity_of(bits),
        whole(cleared(results), bits, shard_bits)[e] is None,
{
    let s2 = cleared(results);
    let g2 = whole(s2, bits, shard_bits);
    lemma_round_local(segs, batches, results, input, bits, shard_bits, md);
    lemma_round_counts(segs, batches, results, input, bits, shard_bits, md);
    lemma_whole_covers(s2, bits, shard_bits);
    lemma_pow2_pos(shard_bits as nat);
    lemma_occupied_sum(g2, s2, bits, shard_bits, s2.len() as int);
    lemma_segment_bases(0, bits, shard_bits);
    assert(Seq::new(
        s2.len(),
        |m: int| occupied(s2[m].slots, 0, s2[m].slots.len() as int).len() as int,
    ) == occ_counts(s2));
    lemma_exists_empty(g2, capacity_of(bits))
}

/// A pair that ran over the end of its segment waits, after the round, at the
/// first bucket of the next segment, with all it has passed occupied and its hash
/// and key in no bucket. Returns the place in the batch of the pair it was.
pub proof fn lemma_round_item<K, V>(
    segs: Seq<SegmentView<K, V>>,
    batches: Seq<Seq<Displaced<K, V>>>,
    results: Seq<SegmentView<K, V>>,
    input: Seq<Displaced<K, V>>,
    bits: u32,
    shard_bits: u32,
    md: int,
    a: int,
    k: int,
) -> (t: int)
    requires
        round_inv(segs, batches, input, bits, shard_bits, md),
        round_results(segs, batches, results),
        md >= 0,
        0 <= a < segs.len(),
        0 <= k < rotated(overflows(results))[a].len(),
    ensures
        0 <= t < batches[source_of(a, segs.len() as int)].len(),
        rotated(overflows(results))[a] == results[source_of(a, segs.len() as int)].overflow,
        rotated(overflows(results))[a][k] == advanced(
            segs[source_of(a, segs.len() as int)],
            batches[source_of(a, segs.len() as int)][t],
        ),
        item_ok(
            whole(cleared(results), bits, shard_bits),
            cleared(results)[a],
            rotated(overflows(results))[a][k],
            next_min(md, bits, shard_bits),
        ),
        last_val(
            rotated(overflows(results))[a],
            rotated(overflows(results))[a][k].hash,
            rotated(overflows(results))[a][k].key,
        ) == last_val(
            input,
            rotated(overflows(results))[a][k].hash,
            rotated(overflows(results))[a][k].key,
        ),
{
    let n = segs.len() as int;
    let m = source_of(a, n);
    let g = whole(segs, bits, shard_bits);
    let s2 = cleared(results);
    let g2 = whole(s2, bits, shard_bits);
    let b2 = rotated(overflows(results));
    let cap = capacity_of(bits);
    let len = capacity_of((bits - shard_bits) as u32);
    lemma_round_local(segs, batches, results, input, bits, shard_bits, md);
    lemma_round_counts(segs, batches, results, input, bits, shard_bits, md);
    lemma_whole_covers(segs, bits, shard_bits);
    lemma_whole_covers(s2, bits, shard_bits);
    lemma_pow2_pos(shard_bits as nat);
    assert(b2[a] == results[m].overflow) by {
        let os = overflows(results);
        if a == 0 {
            assert(b2[0] == os.last());
        } else {
            assert(b2[a] == os.drop_last()[a - 1]);
        }
    }
    let o = b2[a][k];
    assert(o == results[m].overflow[k]);
    assert(batch_result(segs[m], batches[m], results[m]));
    assert(sourced(segs[m], results[m].slots, batches[m], results[m].overflow[k]));
    let t = choose|t: int|
        0 <= t < batches[m].len() && o == advanced(segs[m], #[trigger] batches[m][t]) && passed_by(
            results[m].slots,
            from_of(segs[m], batches[m][t]),
            batches[m][t].hash,
            batches[m][t].key,
        );
    let it = batches[m][t];
    assert(item_ok(g, segs[m], it, md));
    let st = start_of(it.hash, it.displacement as int, bits);
    let h = home(it.hash, bits);
    let from = from_of(segs[m], it);
    let base = segs[m].base;
    lemma_home_bound(it.hash, bits);
    lemma_segment_bases(m, bits, shard_bits);
    lemma_segment_bases(a, bits, shard_bits);
    assert(results[m].overflow.len() <= sum(lens(overflows(results))));
    let e = lemma_round_empty(segs, batches, results, input, bits, shard_bits, md);
    // What the pair has passed is occupied after the round.
    assert forall|q: int| 0 <= q < cap && (in_run(h, q, st) || st <= q < base + len) implies (
    #[trigger] g2[q]) is Some by {
        let (mq, jq) = lemma_round_slot(segs, batches, results, input, bits, shard_bits, md, q);
        if in_run(h, q, st) {
            assert(g[q] is Some);
        } else {
            lemma_segments_disjoint(segs, bits, shard_bits, m, q - base, mq, jq);
            assert(results[m].slots[q - base] is Some);
        }
    }
    assert(g2[e] is None);
    assert(!in_run(h, e, st) && !(st <= e < base + len));
    assert(o.displacement == it.displacement + len - from);
    assert(o.displacement < cap);
    let nb = start_of(o.hash, o.displacement as int, bits);
    assert(nb == if base + len == cap {
        0
    } else {
        base + len
    });
    assert(base + len == cap <==> m == n - 1) by {
        if m < n - 1 {
            lemma_segments_disjoint(segs, bits, shard_bits, m, 0, n - 1, 0);
        }
        lemma_segment_bases(n - 1, bits, shard_bits);
    }
    assert(nb == s2[a].base) by {
        assert(s2[a].base == segment_base(a, bits, shard_bits));
    }
    assert(pending_ok(g2, bits, o)) by {
        assert forall|q: int| 0 <= q < g2.len() && in_run(h, q, nb) implies (#[trigger] g2[q]) is Some by {
            assert(in_run(h, q, st) || st <= q < base + len);
        }
    }
    assert(absent(g2, o.hash, o.key)) by {
        assert forall|p: int| !slot_is(g2, p, o.hash, o.key) by {
            if slot_is(g2, p, o.hash, o.key) {
                let (mp, jp) = lemma_round_slot(segs, batches, results, input, bits, shard_bits, md, p);
                if mp == m {
                    assert(absent(results[m].slots, results[m].overflow[k].hash, results[m].overflow[k].key));
                    assert(slot_is(results[m].slots, jp, o.hash, o.key));
                } else if g[p] is Some {
                    assert(slot_is(g, p, it.hash, it.key));
                } else {
                    assert(arrived(segs[mp], results[mp].slots, batches[mp], jp));
                    let t2 = choose|t2: int|
                        0 <= t2 < batches[mp].len() && came_from(
                            segs[mp],
                            results[mp].slots,
                            jp,
                            #[trigger] batches[mp][t2],
                        );
                    assert(batches[mp][t2].hash == batches[m][t].hash);
                }
            }
        }
    }
    assert(last_val(results[m].overflow, results[m].overflow[k].hash, results[m].overflow[k].key)
        == last_val(batches[m], results[m].overflow[k].hash, results[m].overflow[k].key));
    assert(last_val(batches[m], batches[m][t].hash, batches[m][t].key) == last_val(
        input,
        batches[m][t].hash,
        batches[m][t].key,
    ));
    assert(fits(s2[a], o));
    t
}

/// After a round, every pair of the input that is in no bucket still waits.
pub proof fn lemma_round_kept<K, V>(
    segs: Seq<SegmentView<K, V>>,
    batches: Seq<Seq<Displaced<K, V>>>,
    results: Seq<SegmentView<K, V>>,
    input: Seq<Displaced<K, V>>,
    bits: u32,
    shard_bits: u32,
    md: int,
    t: int,
)
    requires
        round_inv(segs, batches, input, bits, shard_bits, md),
        round_results(segs, batches, results),
        0 <= t < input.len(),
    ensures
        !absent(whole(cleared(results), bits, shard_bits), input[t].hash, input[t].key) || waiting(
            rotated(overflows(results)),
            input[t].hash,
            input[t].key,
        ),
{
    let n = segs.len() as int;
    let g = whole(segs, bits, shard_bits);
    let s2 = cleared(results);
    let g2 = whole(s2, bits, shard_bits);
    let b2 = rotated(overflows(results));
    let x = input[t];
    lemma_round_local(segs, batches, results, input, bits, shard_bits, md);
    lemma_whole_covers(segs, bits, shard_bits);
    lemma_whole_covers(s2, bits, shard_bits);
    if !absent(g, x.hash, x.key) {
        let p = choose|p: int| slot_is(g, p, x.hash, x.key);
        let (m, j) = lemma_round_slot(segs, batches, results, input, bits, shard_bits, md, p);
        assert(slot_is(g2, p, x.hash, x.key));
    } else {
        assert(waiting(batches, x.hash, x.key));
        let m = choose|m: int| 0 <= m < batches.len() && last_val(#[trigger] batches[m], x.hash, x.key) is Some;
        lemma_last_val_some(batches[m], x.hash, x.key);
        let k = choose|k: int|
            0 <= k < batches[m].len() && (#[trigger] batches[m][k]).hash == x.hash && batches[m][k].key
                == x.key;
        assert(batch_result(segs[m], batches[m], results[m]));
        assert(last_val(results[m].overflow, batches[m][k].hash, batches[m][k].key) is Some || !absent(
            results[m].slots,
            batches[m][k].hash,
            batches[m][k].key,
        ));
        if last_val(results[m].overflow, x.hash, x.key) is Some {
            let a = if m == n - 1 {
                0
            } else {
                m + 1
            };
            let os = overflows(results);
            assert(b2[a] == results[m].overflow) by {
                if a == 0 {
                    assert(b2[0] == os.last());
                } else {
                    assert(b2[a] == os.drop_last()[a - 1]);
                }
            }
            assert(last_val(b2[a], x.hash, x.key) is Some);
        } else {
            let j = choose|j: int| slot_is(results[m].slots, j, x.hash, x.key);
            lemma_segments_disjoint(s2, bits, shard_bits, m, j, m, j);
            assert(g2[s2[m].base + j] == s2[m].slots[j]);
            assert(slot_is(g2, s2[m].base + j, x.hash, x.key));
        }
    }
}

/// A round of bulk insertion keeps what holds between rounds.
pub proof fn lemma_round<K, V>(
    segs: Seq<SegmentView<K, V>>,
    batches: Seq<Seq<Displaced<K, V>>>,
    results: Seq<SegmentView<K, V>>,
    input: Seq<Displaced<K, V>>,
    bits: u32,
    shard_bits: u32,
    md: int,
)
    requires
        round_inv(segs, batches, input, bits, shard_bits, md),
        round_results(segs, batches, results),
        md >= 0,
    ensures
        round_inv(
            cleared(results),
            rotated(overflows(results)),
            input,
            bits,
            shard_bits,
            next_min(md, bits, shard_bits),
        ),
        sum(occ_counts(cleared(results))) == sum(occ_counts(segs)) + sum(inserted_counts(results)),
{
    let n = segs.len() as int;
    let s2 = cleared(results);
    let g2 = whole(s2, bits, shard_bits);
    let b2 = rotated(overflows(results));
    let md2 = next_min(md, bits, shard_bits);
    lemma_round_local(segs, batches, results, input, bits, shard_bits, md);
    lemma_round_counts(segs, batches, results, input, bits, shard_bits, md);
    lemma_round_array(segs, batches, results, input, bits, shard_bits, md);
    lemma_pow2_pos(shard_bits as nat);
    assert(b2.len() == n);
    assert forall|m: int| 0 <= m < s2.len() implies segment_wf(#[trigger] s2[m]) && s2[m].inserted
        == 0 && s2[m].overflow.len() == 0 by {
        assert(segment_wf(results[m]));
    }
    assert forall|a: int, k: int| 0 <= a < s2.len() && 0 <= k < b2[a].len() implies item_ok(
        g2,
        s2[a],
        #[trigger] b2[a][k],
        md2,
    ) by {
        lemma_round_item(segs, batches, results, input, bits, shard_bits, md, a, k);
    }
    assert forall|m1: int, k1: int, m2: int, k2: int|
        0 <= m1 < s2.len() && 0 <= m2 < s2.len() && m1 != m2 && 0 <= k1 < b2[m1].len() && 0 <= k2
            < b2[m2].len() implies (#[trigger] b2[m1][k1]).hash != (#[trigger] b2[m2][k2]).hash by {
        let t1 = lemma_round_item(segs, batches, results, input, bits, shard_bits, md, m1, k1);
        let t2 = lemma_round_item(segs, batches, results, input, bits, shard_bits, md, m2, k2);
        assert(batches[source_of(m1, n)][t1].hash != batches[source_of(m2, n)][t2].hash);
    }
    assert forall|a: int| 0 <= a < s2.len() implies consistent(#[trigger] b2[a]) by {
        assert forall|k1: int, k2: int|
            0 <= k1 < b2[a].len() && 0 <= k2 < b2[a].len() && (#[trigger] b2[a][k1]).hash == (
            #[trigger] b2[a][k2]).hash implies b2[a][k1].displacement == b2[a][k2].displacement by {
            let t1 = lemma_round_item(segs, batches, results, input, bits, shard_bits, md, a, k1);
            let t2 = lemma_round_item(segs, batches, results, input, bits, shard_bits, md, a, k2);
            let m = source_of(a, n);
            assert(consistent(batches[m]));
            assert(batches[m][t1].displacement == batches[m][t2].displacement);
        }
    }
    assert forall|a: int, k: int| 0 <= a < s2.len() && 0 <= k < b2[a].len() implies last_val(
        b2[a],
        (#[trigger] b2[a][k]).hash,
        b2[a][k].key,
    ) == last_val(input, b2[a][k].hash, b2[a][k].key) by {
        lemma_round_item(segs, batches, results, input, bits, shard_bits, md, a, k);
    }
    assert forall|t: int| 0 <= t < input.len() implies !absent(
        g2,
        (#[trigger] input[t]).hash,
        input[t].key,
    ) || waiting(b2, input[t].hash, input[t].key) by {
        lemma_round_kept(segs, batches, results, input, bits, shard_bits, md, t);
    }
}

} // verus!
