//! What offering a whole batch of pairs does to one segment.
use crate::segment::{
    entry_is, fits, lemma_count_update, lemma_step_wf, lemma_stop, run, segment_wf, start_of, step,
    stop, Displaced, SegmentView,
};
use crate::table::{occupied, Entry};
use vstd::prelude::*;

verus! {

/// The value of the last pair of the list that has this hash and key, if any has.
pub open spec fn last_val<K, V>(items: Seq<Displaced<K, V>>, hash: u64, key: K) -> Option<V>
    decreases items.len(),
{
    if items.len() == 0 {
        None
    } else if items.last().hash == hash && items.last().key == key {
        Some(items.last().value)
    } else {
        last_val(items.drop_last(), hash, key)
    }
}

/// Pairs of the list that have the same hash have the same displacement.
pub open spec fn consistent<K, V>(items: Seq<Displaced<K, V>>) -> bool {
    forall|a: int, b: int|
        0 <= a < items.len() && 0 <= b < items.len() && (#[trigger] items[a]).hash
            == (#[trigger] items[b]).hash ==> items[a].displacement == items[b].displacement
}

/// Bucket `j` is occupied by this hash and key.
pub open spec fn slot_is<K, V>(s: Seq<Option<Entry<K, V>>>, j: int, hash: u64, key: K) -> bool {
    0 <= j < s.len() && s[j] is Some && entry_is(s[j]->0, hash, key)
}

/// No bucket is occupied by this hash and key.
pub open spec fn absent<K, V>(s: Seq<Option<Entry<K, V>>>, hash: u64, key: K) -> bool {
    forall|j: int| !slot_is(s, j, hash, key)
}

/// No two buckets are occupied by the same hash and key.
pub open spec fn unique<K, V>(s: Seq<Option<Entry<K, V>>>) -> bool {
    forall|a: int, b: int|
        0 <= a < s.len() && 0 <= b < s.len() && a != b && (#[trigger] s[a]) is Some && (
        #[trigger] s[b]) is Some ==> !entry_is(s[a]->0, s[b]->0.hash, s[b]->0.key)
}

/// The buckets `lo..hi` are all occupied.
pub open spec fn filled<K, V>(s: Seq<Option<Entry<K, V>>>, lo: int, hi: int) -> bool {
    forall|q: int| lo <= q < hi ==> (#[trigger] s[q]) is Some
}

/// The buckets from `from` to the end are all occupied, none by this hash and key.
pub open spec fn passed_by<K, V>(s: Seq<Option<Entry<K, V>>>, from: int, hash: u64, key: K) -> bool {
    forall|q: int| from <= q < s.len() ==> (#[trigger] s[q]) is Some && !entry_is(s[q]->0, hash, key)
}

/// The position in the segment at which the pair goes on probing.
pub open spec fn from_of<K, V>(v: SegmentView<K, V>, it: Displaced<K, V>) -> int {
    start_of(it.hash, it.displacement as int, v.bits) - v.base
}

/// The pair as it leaves the segment over its end.
pub open spec fn advanced<K, V>(v: SegmentView<K, V>, it: Displaced<K, V>) -> Displaced<K, V> {
    Displaced {
        hash: it.hash,
        key: it.key,
        value: it.value,
        displacement: (it.displacement + v.slots.len() - from_of(v, it)) as usize,
    }
}

/// The entry in bucket `j` can have been put there by the pair: it has the pair's
/// hash and key, and every bucket from the pair's start up to `j` is occupied.
pub open spec fn came_from<K, V>(
    v: SegmentView<K, V>,
    s: Seq<Option<Entry<K, V>>>,
    j: int,
    it: Displaced<K, V>,
) -> bool {
    &&& it.hash == s[j]->0.hash
    &&& it.key == s[j]->0.key
    &&& 0 <= from_of(v, it) <= j
    &&& filled(s, from_of(v, it), j)
}

/// The overflow pair `o` is one of the pairs of the batch, advanced over the end of
/// the segment after it passed occupied buckets only.
pub open spec fn sourced<K, V>(
    v: SegmentView<K, V>,
    s: Seq<Option<Entry<K, V>>>,
    items: Seq<Displaced<K, V>>,
    o: Displaced<K, V>,
) -> bool {
    exists|t: int|
        0 <= t < items.len() && o == advanced(v, #[trigger] items[t]) && passed_by(
            s,
            from_of(v, items[t]),
            items[t].hash,
            items[t].key,
        )
}

/// Some pair of the batch can have put the entry into bucket `j`.
pub open spec fn arrived<K, V>(
    v: SegmentView<K, V>,
    s: Seq<Option<Entry<K, V>>>,
    items: Seq<Displaced<K, V>>,
    j: int,
) -> bool {
    exists|t: int| 0 <= t < items.len() && came_from(v, s, j, #[trigger] items[t])
}

/// How the segment `r` relates to the segment `v` it was before the batch `items`
/// was offered to it.
pub open spec fn batch_result<K, V>(
    v: SegmentView<K, V>,
    items: Seq<Displaced<K, V>>,
    r: SegmentView<K, V>,
) -> bool {
    &&& r.base == v.base
    &&& r.bits == v.bits
    &&& r.slots.len() == v.slots.len()
    // What was occupied stays occupied, by the same hash and key.
    &&& forall|j: int|
        0 <= j < v.slots.len() && v.slots[j] is Some ==> (#[trigger] r.slots[j]) is Some
            && r.slots[j]->0.hash == v.slots[j]->0.hash && r.slots[j]->0.key
            == v.slots[j]->0.key
    // What is newly occupied was put there by a pair of the batch.
    &&& forall|j: int|
        0 <= j < v.slots.len() && (#[trigger] r.slots[j]) is Some && v.slots[j] is None
            ==> arrived(v, r.slots, items, j)
    // An entry holds the value of the last pair of the batch with its hash and key,
    // or, if the batch has none, what it held before.
    &&& forall|j: int|
        0 <= j < v.slots.len() && (#[trigger] r.slots[j]) is Some ==> match last_val(
            items,
            r.slots[j]->0.hash,
            r.slots[j]->0.key,
        ) {
            Some(value) => r.slots[j]->0.value == value,
            None => r.slots[j] == v.slots[j],
        }
    // Every pair of the batch is in a bucket or in the overflow.
    &&& forall|t: int|
        0 <= t < items.len() ==> last_val(
            r.overflow,
            (#[trigger] items[t]).hash,
            items[t].key,
        ) is Some || !absent(r.slots, items[t].hash, items[t].key)
    // The overflow is made of pairs of the batch that found no room.
    &&& forall|k: int|
        0 <= k < r.overflow.len() ==> sourced(v, r.slots, items, #[trigger] r.overflow[k])
    &&& forall|k: int|
        0 <= k < r.overflow.len() ==> absent(
            r.slots,
            (#[trigger] r.overflow[k]).hash,
            r.overflow[k].key,
        ) && last_val(r.overflow, r.overflow[k].hash, r.overflow[k].key) == last_val(
            items,
            r.overflow[k].hash,
            r.overflow[k].key,
        )
    &&& unique(r.slots)
    &&& occupied(r.slots, 0, r.slots.len() as int).len() == occupied(
        v.slots,
        0,
        v.slots.len() as int,
    ).len() + r.inserted
    &&& r.inserted + r.overflow.len() <= items.len()
}

/// What a batch may be offered to a fresh segment: every pair starts inside the
/// segment, pairs with the same hash start at the same bucket, and no pair's hash
/// and key is in the segment yet.
pub open spec fn batch_ready<K, V>(v: SegmentView<K, V>, items: Seq<Displaced<K, V>>) -> bool {
    &&& segment_wf(v)
    &&& v.inserted == 0
    &&& v.overflow.len() == 0
    &&& unique(v.slots)
    &&& consistent(items)
    &&& forall|t: int| 0 <= t < items.len() ==> fits(v, #[trigger] items[t])
    &&& forall|t: int| 0 <= t < items.len() ==> absent(v.slots, (#[trigger] items[t]).hash, items[t].key)
}

/// The last value under a hash and key after one more pair.
pub proof fn lemma_last_val_push<K, V>(items: Seq<Displaced<K, V>>, it: Displaced<K, V>, hash: u64, key: K)
    ensures
        last_val(items.push(it), hash, key) == if it.hash == hash && it.key == key {
            Some(it.value)
        } else {
            last_val(items, hash, key)
        },
{
    assert(items.push(it).drop_last() == items);
}

/// A list has a last value under a hash and key exactly when one of its pairs has
/// that hash and key.
pub proof fn lemma_last_val_some<K, V>(items: Seq<Displaced<K, V>>, hash: u64, key: K)
    ensures
        last_val(items, hash, key) is Some <==> exists|k: int|
            0 <= k < items.len() && (#[trigger] items[k]).hash == hash && items[k].key == key,
    decreases items.len(),
{
    if items.len() > 0 {
        lemma_last_val_some(items.drop_last(), hash, key);
        if items.last().hash == hash && items.last().key == key {
            assert(items[items.len() - 1].hash == hash);
        } else {
            if last_val(items.drop_last(), hash, key) is Some {
                let k = choose|k: int|
                    0 <= k < items.drop_last().len() && (#[trigger] items.drop_last()[k]).hash
                        == hash && items.drop_last()[k].key == key;
                assert(items[k].hash == hash && items[k].key == key);
            }
            if exists|k: int|
                0 <= k < items.len() && (#[trigger] items[k]).hash == hash && items[k].key == key {
                let k = choose|k: int|
                    0 <= k < items.len() && (#[trigger] items[k]).hash == hash && items[k].key
                        == key;
                assert(items.drop_last()[k].hash == hash && items.drop_last()[k].key == key);
            }
        }
    }
}

/// One more pair offered to the segment keeps the relation between the segment and
/// the batch.
pub proof fn lemma_batch_step<K, V>(
    v: SegmentView<K, V>,
    prev: Seq<Displaced<K, V>>,
    rp: SegmentView<K, V>,
    it: Displaced<K, V>,
)
    requires
        batch_ready(v, prev.push(it)),
        batch_result(v, prev, rp),
        segment_wf(rp),
    ensures
        batch_result(v, prev.push(it), step(rp, it)),
        segment_wf(step(rp, it)),
{
    let items = prev.push(it);
    let r = step(rp, it);
    let n = v.slots.len() as int;
    let from = from_of(v, it);
    let j = stop(rp.slots, from, it.hash, it.key);
    let last = prev.len() as int;
    assert(items[last] == it);
    assert(fits(v, items[last]));
    assert(fits(rp, it));
    assert(from == from_of(rp, it));
    lemma_stop(rp.slots, from, it.hash, it.key);
    lemma_step_wf(rp, it);
    assert forall|t: int| 0 <= t < prev.len() implies items[t] == #[trigger] prev[t] by {}
    assert(absent(v.slots, items[last].hash, items[last].key));

    // A bucket that holds the pair's hash and key lies at or after the pair's start.
    assert forall|jj: int| slot_is(rp.slots, jj, it.hash, it.key) implies from <= jj by {
        if v.slots[jj] is Some {
            assert(rp.slots[jj] is Some);
            assert(slot_is(v.slots, jj, it.hash, it.key));
        } else {
            assert(rp.slots[jj] is Some);
            assert(arrived(v, rp.slots, prev, jj));
            let t = choose|t: int| 0 <= t < prev.len() && came_from(v, rp.slots, jj, #[trigger] prev[t]);
            assert(items[t] == prev[t]);
            assert(items[t].hash == items[last].hash);
        }
    }
    // An entry that arrived with the pair's hash and key has every bucket between
    // the pair's start and itself occupied.
    assert forall|jj: int| slot_is(rp.slots, jj, it.hash, it.key) implies filled(
        rp.slots,
        from,
        jj,
    ) by {
        if v.slots[jj] is Some {
            assert(rp.slots[jj] is Some);
            assert(slot_is(v.slots, jj, it.hash, it.key));
        } else {
            assert(rp.slots[jj] is Some);
            assert(arrived(v, rp.slots, prev, jj));
            let t = choose|t: int| 0 <= t < prev.len() && came_from(v, rp.slots, jj, #[trigger] prev[t]);
            assert(items[t] == prev[t]);
            assert(items[t].hash == items[last].hash);
        }
    }
    // A pair in the overflow with the same hash and key passed every bucket from the
    // pair's start to the end.
    assert forall|k: int|
        0 <= k < rp.overflow.len() && (#[trigger] rp.overflow[k]).hash == it.hash
            && rp.overflow[k].key == it.key implies passed_by(rp.slots, from, it.hash, it.key) by {
        assert(sourced(v, rp.slots, prev, rp.overflow[k]));
        let t = choose|t: int|
            0 <= t < prev.len() && rp.overflow[k] == advanced(v, #[trigger] prev[t]) && passed_by(
                rp.slots,
                from_of(v, prev[t]),
                prev[t].hash,
                prev[t].key,
            );
        assert(items[t] == prev[t]);
        assert(items[t].hash == items[last].hash);
    }
    lemma_last_val_some(rp.overflow, it.hash, it.key);
    assert forall|h: u64, k: K| #[trigger]
        last_val(items, h, k) == if it.hash == h && it.key == k {
            Some(it.value)
        } else {
            last_val(prev, h, k)
        } by {
        lemma_last_val_push(prev, it, h, k);
    }

    if j >= n {
        let o = advanced(v, it);
        assert(r.slots == rp.slots);
        assert(r.overflow == rp.overflow.push(o));
        assert(passed_by(rp.slots, from, it.hash, it.key));
        assert(absent(rp.slots, it.hash, it.key)) by {
            assert forall|jj: int| !slot_is(rp.slots, jj, it.hash, it.key) by {
                if slot_is(rp.slots, jj, it.hash, it.key) {
                    assert(from <= jj);
                    assert(rp.slots[jj] is Some);
                }
            }
        }
        assert forall|h: u64, k: K| #[trigger]
            last_val(r.overflow, h, k) == if it.hash == h && it.key == k {
                Some(it.value)
            } else {
                last_val(rp.overflow, h, k)
            } by {
            lemma_last_val_push(rp.overflow, o, h, k);
        }
        assert forall|jj: int|
            0 <= jj < n && (#[trigger] r.slots[jj]) is Some && v.slots[jj] is None implies arrived(
            v,
            r.slots,
            items,
            jj,
        ) by {
            assert(arrived(v, rp.slots, prev, jj));
            let t = choose|t: int| 0 <= t < prev.len() && came_from(v, rp.slots, jj, #[trigger] prev[t]);
            assert(came_from(v, r.slots, jj, items[t]));
        }
        assert forall|jj: int| 0 <= jj < n && (#[trigger] r.slots[jj]) is Some implies match last_val(
            items,
            r.slots[jj]->0.hash,
            r.slots[jj]->0.key,
        ) {
            Some(value) => r.slots[jj]->0.value == value,
            None => r.slots[jj] == v.slots[jj],
        } by {
            assert(!slot_is(rp.slots, jj, it.hash, it.key));
        }
        assert forall|t: int| 0 <= t < items.len() implies last_val(
            r.overflow,
            (#[trigger] items[t]).hash,
            items[t].key,
        ) is Some || !absent(r.slots, items[t].hash, items[t].key) by {
            if t < last {
                assert(items[t] == prev[t]);
            }
        }
        assert forall|k: int| 0 <= k < r.overflow.len() implies sourced(
            v,
            r.slots,
            items,
            #[trigger] r.overflow[k],
        ) by {
            if k < rp.overflow.len() {
                assert(r.overflow[k] == rp.overflow[k]);
                assert(sourced(v, rp.slots, prev, rp.overflow[k]));
                let t = choose|t: int|
                    0 <= t < prev.len() && rp.overflow[k] == advanced(v, #[trigger] prev[t])
                        && passed_by(rp.slots, from_of(v, prev[t]), prev[t].hash, prev[t].key);
                assert(items[t] == prev[t]);
            } else {
                assert(r.overflow[k] == advanced(v, items[last]));
            }
        }
        assert forall|k: int| 0 <= k < r.overflow.len() implies absent(
            r.slots,
            (#[trigger] r.overflow[k]).hash,
            r.overflow[k].key,
        ) && last_val(r.overflow, r.overflow[k].hash, r.overflow[k].key) == last_val(
            items,
            r.overflow[k].hash,
            r.overflow[k].key,
        ) by {
            if k < rp.overflow.len() {
                assert(r.overflow[k] == rp.overflow[k]);
            }
        }
    } else {
        let e = Entry { hash: it.hash, key: it.key, value: it.value };
        assert(r.slots == rp.slots.update(j, Some(e)));
        assert(r.overflow == rp.overflow);
        // No pair with this hash and key is in the overflow.
        assert(last_val(rp.overflow, it.hash, it.key) is None) by {
            if last_val(rp.overflow, it.hash, it.key) is Some {
                let k = choose|k: int|
                    0 <= k < rp.overflow.len() && (#[trigger] rp.overflow[k]).hash == it.hash
                        && rp.overflow[k].key == it.key;
                assert(passed_by(rp.slots, from, it.hash, it.key));
                assert(rp.slots[j] is Some && !entry_is(rp.slots[j]->0, it.hash, it.key));
            }
        }
        // The only bucket that may hold this hash and key is bucket `j`.
        assert forall|jj: int| slot_is(rp.slots, jj, it.hash, it.key) implies jj == j by {
            assert(from <= jj);
            assert(filled(rp.slots, from, jj));
            if jj < j {
                assert(rp.slots[jj] is Some);
            } else if jj > j {
                assert(rp.slots[j] is Some);
                if jj != j {
                    assert(rp.slots[jj] is Some);
                    assert(!entry_is(rp.slots[j]->0, rp.slots[jj]->0.hash, rp.slots[jj]->0.key));
                }
            }
        }
        lemma_count_update(rp.slots, j, e);
        assert forall|jj: int|
            0 <= jj < n && v.slots[jj] is Some implies (#[trigger] r.slots[jj]) is Some
            && r.slots[jj]->0.hash == v.slots[jj]->0.hash && r.slots[jj]->0.key
            == v.slots[jj]->0.key by {
            assert(rp.slots[jj] is Some);
        }
        assert forall|jj: int|
            0 <= jj < n && (#[trigger] r.slots[jj]) is Some && v.slots[jj] is None implies arrived(
            v,
            r.slots,
            items,
            jj,
        ) by {
            if rp.slots[jj] is Some {
                assert(arrived(v, rp.slots, prev, jj));
                let t = choose|t: int|
                    0 <= t < prev.len() && came_from(v, rp.slots, jj, #[trigger] prev[t]);
                assert(items[t] == prev[t]);
                assert forall|q: int| from_of(v, prev[t]) <= q < jj implies (#[trigger] r.slots[q]) is Some by {
                    assert(rp.slots[q] is Some);
                }
                assert(came_from(v, r.slots, jj, items[t]));
            } else {
                assert(jj == j);
                assert forall|q: int| from <= q < j implies (#[trigger] r.slots[q]) is Some by {
                    assert(rp.slots[q] is Some);
                }
                assert(came_from(v, r.slots, j, items[last]));
            }
        }
        assert forall|jj: int| 0 <= jj < n && (#[trigger] r.slots[jj]) is Some implies match last_val(
            items,
            r.slots[jj]->0.hash,
            r.slots[jj]->0.key,
        ) {
            Some(value) => r.slots[jj]->0.value == value,
            None => r.slots[jj] == v.slots[jj],
        } by {
            if jj != j {
                assert(rp.slots[jj] is Some);
                assert(!slot_is(rp.slots, jj, it.hash, it.key));
            }
        }
        assert(slot_is(r.slots, j, it.hash, it.key));
        assert forall|t: int| 0 <= t < items.len() implies last_val(
            r.overflow,
            (#[trigger] items[t]).hash,
            items[t].key,
        ) is Some || !absent(r.slots, items[t].hash, items[t].key) by {
            if t < last {
                assert(items[t] == prev[t]);
                if !(last_val(rp.overflow, prev[t].hash, prev[t].key) is Some) {
                    let jj = choose|jj: int| slot_is(rp.slots, jj, prev[t].hash, prev[t].key);
                    assert(slot_is(r.slots, jj, prev[t].hash, prev[t].key));
                }
            }
        }
        assert forall|k: int| 0 <= k < r.overflow.len() implies sourced(
            v,
            r.slots,
            items,
            #[trigger] r.overflow[k],
        ) by {
            assert(sourced(v, rp.slots, prev, rp.overflow[k]));
            let t = choose|t: int|
                0 <= t < prev.len() && rp.overflow[k] == advanced(v, #[trigger] prev[t])
                    && passed_by(rp.slots, from_of(v, prev[t]), prev[t].hash, prev[t].key);
            assert(items[t] == prev[t]);
            assert forall|q: int| from_of(v, prev[t]) <= q < r.slots.len() implies (
            #[trigger] r.slots[q]) is Some && !entry_is(r.slots[q]->0, prev[t].hash, prev[t].key) by {
                assert(rp.slots[q] is Some && !entry_is(rp.slots[q]->0, prev[t].hash, prev[t].key));
            }
        }
        assert forall|k: int| 0 <= k < r.overflow.len() implies absent(
            r.slots,
            (#[trigger] r.overflow[k]).hash,
            r.overflow[k].key,
        ) && last_val(r.overflow, r.overflow[k].hash, r.overflow[k].key) == last_val(
            items,
            r.overflow[k].hash,
            r.overflow[k].key,
        ) by {
            let o = rp.overflow[k];
            assert(absent(rp.slots, o.hash, o.key));
            assert(!(o.hash == it.hash && o.key == it.key));
            assert forall|jj: int| !slot_is(r.slots, jj, o.hash, o.key) by {
                assert(!slot_is(rp.slots, jj, o.hash, o.key));
            }
        }
        assert(unique(r.slots)) by {
            assert forall|a: int, b: int|
                0 <= a < r.slots.len() && 0 <= b < r.slots.len() && a != b && (
                #[trigger] r.slots[a]) is Some && (#[trigger] r.slots[b]) is Some implies !entry_is(
                r.slots[a]->0,
                r.slots[b]->0.hash,
                r.slots[b]->0.key,
            ) by {
                if a == j {
                    assert(rp.slots[b] is Some);
                    assert(!slot_is(rp.slots, b, it.hash, it.key));
                } else if b == j {
                    assert(rp.slots[a] is Some);
                    assert(!slot_is(rp.slots, a, it.hash, it.key));
                } else {
                    assert(rp.slots[a] is Some && rp.slots[b] is Some);
                }
            }
        }
    }
}

/// Offering a batch to a fresh segment relates the segment after to the segment
/// before as `batch_result` says.
pub proof fn lemma_batch<K, V>(v: SegmentView<K, V>, items: Seq<Displaced<K, V>>)
    requires
        batch_ready(v, items),
    ensures
        batch_result(v, items, run(v, items)),
        segment_wf(run(v, items)),
    decreases items.len(),
{
    if items.len() == 0 {
        assert(run(v, items) == v);
        assert forall|j: int|
            0 <= j < v.slots.len() && (#[trigger] v.slots[j]) is Some implies match last_val(
            items,
            v.slots[j]->0.hash,
            v.slots[j]->0.key,
        ) {
            Some(value) => v.slots[j]->0.value == value,
            None => v.slots[j] == v.slots[j],
        } by {}
    } else {
        let prev = items.drop_last();
        let it = items.last();
        assert(items == prev.push(it));
        assert(batch_ready(v, prev)) by {
            assert forall|t: int| 0 <= t < prev.len() implies fits(v, #[trigger] prev[t]) by {
                assert(prev[t] == items[t]);
            }
            assert forall|t: int| 0 <= t < prev.len() implies absent(
                v.slots,
                (#[trigger] prev[t]).hash,
                prev[t].key,
            ) by {
                assert(prev[t] == items[t]);
            }
            assert forall|a: int, b: int|
                0 <= a < prev.len() && 0 <= b < prev.len() && (#[trigger] prev[a]).hash == (
                #[trigger] prev[b]).hash implies prev[a].displacement == prev[b].displacement by {
                assert(prev[a] == items[a] && prev[b] == items[b]);
            }
        }
        lemma_batch(v, prev);
        lemma_batch_step(v, prev, run(v, prev), it);
    }
}

} // verus!
