//! The hash map: a bucket array, the strategy that hashes its keys, and what the
//! array holds seen as a map from keys to values.
use crate::batch::{absent, last_val, lemma_last_val_push, lemma_last_val_some, slot_is, unique};
use crate::bulk::{bits_for, build, built, entering, hashed, Built};
use crate::key::{make_hash, HashStrategy, TableKey};
use crate::layout::{in_run, lemma_exists_empty, placed};
use crate::par::table::{items_of_refs, pairs_of_refs};
use crate::segment::{
    capacity, capacity_of, entry_is, home, home_index, lemma_count_clear, lemma_count_update,
    lemma_home_bound, valid_bits,
};
use crate::table::{
    keys, lemma_occupied_members, lemma_occupied_none, occupied, pairs, values, Entry, RawTable,
};
use vstd::arithmetic::power2::lemma2_to64;
use vstd::prelude::*;

verus! {

/// The map that the first `n` buckets hold: bucket after bucket, each occupied
/// bucket puts its value under its key.
pub open spec fn entries_upto<K, V>(g: Seq<Option<Entry<K, V>>>, n: int) -> Map<K, V>
    decreases n,
{
    if n <= 0 {
        Map::empty()
    } else if g[n - 1] is Some {
        entries_upto(g, n - 1).insert(g[n - 1]->0.key, g[n - 1]->0.value)
    } else {
        entries_upto(g, n - 1)
    }
}

/// The map that the buckets hold.
pub open spec fn entries<K, V>(g: Seq<Option<Entry<K, V>>>) -> Map<K, V> {
    entries_upto(g, g.len() as int)
}

/// Every entry has the hash that the strategy gives its key.
pub open spec fn keyed<K: TableKey, V, S: HashStrategy>(g: Seq<Option<Entry<K, V>>>, strategy: S) -> bool {
    forall|p: int|
        0 <= p < g.len() && (#[trigger] g[p]) is Some ==> g[p]->0.hash == strategy.spec_hash(
            g[p]->0.key.code(),
        )
}

/// No two buckets hold the same key.
pub open spec fn distinct_keys<K, V>(g: Seq<Option<Entry<K, V>>>) -> bool {
    forall|p: int, q: int|
        0 <= p < g.len() && 0 <= q < g.len() && p != q && (#[trigger] g[p]) is Some && (
        #[trigger] g[q]) is Some ==> g[p]->0.key != g[q]->0.key
}

/// One of the first `n` buckets holds the key.
pub open spec fn key_at<K, V>(g: Seq<Option<Entry<K, V>>>, n: int, key: K) -> bool {
    exists|p: int| 0 <= p < n && (#[trigger] g[p]) is Some && g[p]->0.key == key
}

/// The map that results from inserting the pairs one after the other: a later pair
/// replaces the value of an earlier pair with the same key.
pub open spec fn collected<K, V>(items: Seq<(K, V)>) -> Map<K, V>
    decreases items.len(),
{
    if items.len() == 0 {
        Map::empty()
    } else {
        collected(items.drop_last()).insert(items.last().0, items.last().1)
    }
}

/// The array is the array of a map in good order: it can be probed, every entry
/// has the hash of its key, no key is held twice, the counter is right, and a
/// tenth of the buckets is empty.
pub open spec fn table_ok<K: TableKey, V, S: HashStrategy>(
    g: Seq<Option<Entry<K, V>>>,
    bits: u32,
    strategy: S,
    size: int,
) -> bool {
    &&& valid_bits(bits)
    &&& placed(g, bits)
    &&& unique(g)
    &&& keyed(g, strategy)
    &&& size == occupied(g, 0, g.len() as int).len()
    &&& size + size / 10 < capacity_of(bits)
    &&& size <= usize::MAX / 8
}

/// With every entry under the hash of its key, no hash and key twice means no key
/// twice.
pub proof fn lemma_distinct_keys<K: TableKey, V, S: HashStrategy>(g: Seq<Option<Entry<K, V>>>, strategy: S)
    requires
        unique(g),
        keyed(g, strategy),
    ensures
        distinct_keys(g),
{
}

/// What the map of the first `n` buckets holds: the keys of the occupied buckets,
/// each with the value in its bucket, and as many keys as buckets are occupied.
pub proof fn lemma_entries<K, V>(g: Seq<Option<Entry<K, V>>>, n: int)
    requires
        distinct_keys(g),
        0 <= n <= g.len(),
    ensures
        forall|k: K| #[trigger] entries_upto(g, n).contains_key(k) <==> key_at(g, n, k),
        forall|p: int|
            0 <= p < n && (#[trigger] g[p]) is Some ==> entries_upto(g, n).contains_key(g[p]->0.key)
                && entries_upto(g, n)[g[p]->0.key] == g[p]->0.value,
        entries_upto(g, n).dom().finite(),
        entries_upto(g, n).dom().len() == occupied(g, 0, n).len(),
    decreases n,
{
    if n > 0 {
        lemma_entries(g, n - 1);
        let prev = entries_upto(g, n - 1);
        let cur = entries_upto(g, n);
        if g[n - 1] is Some {
            let key = g[n - 1]->0.key;
            assert(!prev.contains_key(key)) by {
                if key_at(g, n - 1, key) {
                    let p = choose|p: int| 0 <= p < n - 1 && (#[trigger] g[p]) is Some && g[p]->0.key == key;
                    assert(g[n - 1] is Some);
                }
            }
            assert forall|k: K| #[trigger] cur.contains_key(k) <==> key_at(g, n, k) by {
                if key_at(g, n, k) {
                    let p = choose|p: int| 0 <= p < n && (#[trigger] g[p]) is Some && g[p]->0.key == k;
                    if p < n - 1 {
                        assert(key_at(g, n - 1, k));
                    }
                }
                if cur.contains_key(k) {
                    if k == key {
                        assert(g[n - 1] is Some);
                    } else {
                        assert(key_at(g, n - 1, k));
                        let p = choose|p: int| 0 <= p < n - 1 && (#[trigger] g[p]) is Some && g[p]->0.key == k;
                        assert(g[p] is Some);
                    }
                }
            }
        } else {
            assert forall|k: K| #[trigger] cur.contains_key(k) <==> key_at(g, n, k) by {
                if key_at(g, n, k) {
                    let p = choose|p: int| 0 <= p < n && (#[trigger] g[p]) is Some && g[p]->0.key == k;
                    assert(key_at(g, n - 1, k));
                }
                if cur.contains_key(k) {
                    assert(key_at(g, n - 1, k));
                    let p = choose|p: int| 0 <= p < n - 1 && (#[trigger] g[p]) is Some && g[p]->0.key == k;
                    assert(g[p] is Some);
                }
            }
        }
    } else {
        assert forall|k: K| #[trigger] entries_upto(g, n).contains_key(k) <==> key_at(g, n, k) by {}
    }
}

/// Collecting the pairs of the first `n` buckets gives the map that those buckets
/// hold.
pub proof fn lemma_collected_pairs<K, V>(g: Seq<Option<Entry<K, V>>>, n: int)
    requires
        0 <= n <= g.len(),
    ensures
        collected(pairs(g, 0, n)) == entries_upto(g, n),
    decreases n,
{
    if n > 0 {
        lemma_collected_pairs(g, n - 1);
        if g[n - 1] is Some {
            let pair = (g[n - 1]->0.key, g[n - 1]->0.value);
            assert(pairs(g, 0, n) == pairs(g, 0, n - 1).push(pair));
            assert(pairs(g, 0, n).drop_last() == pairs(g, 0, n - 1));
        } else {
            assert(pairs(g, 0, n) == pairs(g, 0, n - 1));
        }
    } else {
        assert(pairs(g, 0, n) == Seq::<(K, V)>::empty());
    }
}

/// The collected map has a key exactly when the pairs, as they enter the table,
/// have a last value under the key and its hash, and then it holds that value.
pub proof fn lemma_collected_last<K: TableKey, V, S: HashStrategy>(items: Seq<(K, V)>, strategy: S, key: K)
    ensures
        match last_val(hashed(items, strategy), strategy.spec_hash(key.code()), key) {
            Some(v) => collected(items).contains_key(key) && collected(items)[key] == v,
            None => !collected(items).contains_key(key),
        },
    decreases items.len(),
{
    if items.len() > 0 {
        let prev = items.drop_last();
        lemma_collected_last(prev, strategy, key);
        assert(hashed(items, strategy) == hashed(prev, strategy).push(entering(items.last(), strategy)));
        lemma_last_val_push(
            hashed(prev, strategy),
            entering(items.last(), strategy),
            strategy.spec_hash(key.code()),
            key,
        );
    }
}

/// A table built in bulk from the pairs holds the map collected from the pairs,
/// and is the array of a map in good order but for its counter.
pub proof fn lemma_built_map<K: TableKey, V, S: HashStrategy>(
    items: Seq<(K, V)>,
    strategy: S,
    g: Seq<Option<Entry<K, V>>>,
    bits: u32,
)
    requires
        built(hashed(items, strategy), g, bits),
    ensures
        entries(g) == collected(items),
        keyed(g, strategy),
        distinct_keys(g),
{
    let input = hashed(items, strategy);
    assert forall|p: int| 0 <= p < g.len() && (#[trigger] g[p]) is Some implies g[p]->0.hash
        == strategy.spec_hash(g[p]->0.key.code()) by {
        lemma_last_val_some(input, g[p]->0.hash, g[p]->0.key);
        let t = choose|t: int|
            0 <= t < input.len() && (#[trigger] input[t]).hash == g[p]->0.hash && input[t].key
                == g[p]->0.key;
        assert(input[t] == entering(items[t], strategy));
    }
    lemma_distinct_keys(g, strategy);
    lemma_entries(g, g.len() as int);
    assert forall|k: K| #[trigger] entries(g).contains_key(k) <==> collected(items).contains_key(k) by {
        lemma_collected_last(items, strategy, k);
        if entries(g).contains_key(k) {
            let p = choose|p: int| 0 <= p < g.len() && (#[trigger] g[p]) is Some && g[p]->0.key == k;
            assert(g[p] is Some);
        }
        if collected(items).contains_key(k) {
            lemma_last_val_some(input, strategy.spec_hash(k.code()), k);
            let t = choose|t: int|
                0 <= t < input.len() && (#[trigger] input[t]).hash == strategy.spec_hash(k.code())
                    && input[t].key == k;
            assert(!absent(g, input[t].hash, input[t].key));
            let p = choose|p: int| slot_is(g, p, input[t].hash, input[t].key);
            assert(g[p] is Some);
            assert(key_at(g, g.len() as int, k));
        }
    }
    assert forall|k: K| entries(g).contains_key(k) implies #[trigger] entries(g)[k] == collected(
        items,
    )[k] by {
        lemma_collected_last(items, strategy, k);
        let p = choose|p: int| 0 <= p < g.len() && (#[trigger] g[p]) is Some && g[p]->0.key == k;
        assert(g[p] is Some);
    }
    assert(entries(g) =~= collected(items));
}

/// The collected map has the keys of the pairs and no others.
pub proof fn lemma_collected_keys<K, V>(items: Seq<(K, V)>, key: K)
    ensures
        collected(items).contains_key(key) <==> exists|i: int|
            0 <= i < items.len() && (#[trigger] items[i]).0 == key,
    decreases items.len(),
{
    if items.len() > 0 {
        let prev = items.drop_last();
        lemma_collected_keys(prev, key);
        if items.last().0 == key {
            assert(items[items.len() - 1].0 == key);
        } else {
            if collected(prev).contains_key(key) {
                let i = choose|i: int| 0 <= i < prev.len() && (#[trigger] prev[i]).0 == key;
                assert(items[i].0 == key);
            }
            if exists|i: int| 0 <= i < items.len() && (#[trigger] items[i]).0 == key {
                let i = choose|i: int| 0 <= i < items.len() && (#[trigger] items[i]).0 == key;
                assert(prev[i].0 == key);
            }
        }
    }
}

/// Of the pairs with one key, the last wins: the collected map holds under the
/// key of pair `i` the value of pair `i` if no later pair has the same key.
pub proof fn lemma_last_wins<K, V>(items: Seq<(K, V)>, i: int)
    requires
        0 <= i < items.len(),
        forall|j: int| i < j < items.len() ==> (#[trigger] items[j]).0 != items[i].0,
    ensures
        collected(items).contains_key(items[i].0),
        collected(items)[items[i].0] == items[i].1,
    decreases items.len(),
{
    if i < items.len() - 1 {
        let prev = items.drop_last();
        assert(items[items.len() - 1].0 != items[i].0);
        assert forall|j: int| i < j < prev.len() implies (#[trigger] prev[j]).0 != prev[i].0 by {
            assert(prev[j] == items[j]);
        }
        lemma_last_wins(prev, i);
    }
}

/// What collecting pairs into a map gives: the map has one entry for each key
/// that occurs among the pairs, as many entries as there are distinct keys, and it
/// holds under each key the value of the last pair that has the key.
pub proof fn lemma_collected<K, V>(items: Seq<(K, V)>)
    ensures
        collected(items).dom() == Set::new(
            |k: K| exists|i: int| 0 <= i < items.len() && (#[trigger] items[i]).0 == k,
        ),
        collected(items).dom().finite(),
        forall|i: int|
            0 <= i < items.len() && (forall|j: int|
                i < j < items.len() ==> (#[trigger] items[j]).0 != items[i].0) ==> collected(
                items,
            )[(#[trigger] items[i]).0] == items[i].1,
{
    assert forall|k: K|
        collected(items).dom().contains(k) <==> (exists|i: int|
            0 <= i < items.len() && (#[trigger] items[i]).0 == k) by {
        lemma_collected_keys(items, k);
    }
    assert(collected(items).dom() =~= Set::new(
        |k: K| exists|i: int| 0 <= i < items.len() && (#[trigger] items[i]).0 == k,
    ));
    lemma_collected_finite(items);
    assert forall|i: int|
        0 <= i < items.len() && (forall|j: int|
            i < j < items.len() ==> (#[trigger] items[j]).0 != items[i].0) implies collected(
        items,
    )[(#[trigger] items[i]).0] == items[i].1 by {
        lemma_last_wins(items, i);
    }
}

/// Collecting finitely many pairs gives a finite map.
pub proof fn lemma_collected_finite<K, V>(items: Seq<(K, V)>)
    ensures
        collected(items).dom().finite(),
        collected(items).len() <= items.len(),
    decreases items.len(),
{
    if items.len() > 0 {
        lemma_collected_finite(items.drop_last());
    }
}

/// Writing an entry into a bucket that is empty or holds the entry's key puts the
/// entry's value under its key in the map that the buckets hold.
pub proof fn lemma_entries_write<K, V>(g: Seq<Option<Entry<K, V>>>, j: int, e: Entry<K, V>)
    requires
        0 <= j < g.len(),
        distinct_keys(g),
        distinct_keys(g.update(j, Some(e))),
        g[j] is None || g[j]->0.key == e.key,
    ensures
        entries(g.update(j, Some(e))) == entries(g).insert(e.key, e.value),
{
    let h = g.update(j, Some(e));
    let n = g.len() as int;
    lemma_entries(g, n);
    lemma_entries(h, n);
    assert forall|k: K| #[trigger] entries(h).contains_key(k) <==> entries(g).insert(
        e.key,
        e.value,
    ).contains_key(k) by {
        if key_at(h, n, k) {
            let p = choose|p: int| 0 <= p < n && (#[trigger] h[p]) is Some && h[p]->0.key == k;
            if p != j {
                assert(g[p] is Some);
                assert(key_at(g, n, k));
            }
        }
        if key_at(g, n, k) && k != e.key {
            let p = choose|p: int| 0 <= p < n && (#[trigger] g[p]) is Some && g[p]->0.key == k;
            assert(h[p] is Some);
            assert(key_at(h, n, k));
        }
        if k == e.key {
            assert(h[j] is Some);
            assert(key_at(h, n, k));
        }
    }
    assert forall|k: K| entries(h).contains_key(k) implies #[trigger] entries(h)[k] == entries(
        g,
    ).insert(e.key, e.value)[k] by {
        let p = choose|p: int| 0 <= p < n && (#[trigger] h[p]) is Some && h[p]->0.key == k;
        assert(h[p] is Some);
        if p != j {
            assert(g[p] is Some);
            assert(h[j] is Some);
        }
    }
    assert(entries(h) =~= entries(g).insert(e.key, e.value));
}

/// Emptying a bucket takes its key out of the map that the buckets hold.
pub proof fn lemma_entries_clear<K, V>(g: Seq<Option<Entry<K, V>>>, j: int)
    requires
        0 <= j < g.len(),
        distinct_keys(g),
        g[j] is Some,
    ensures
        entries(g.update(j, None)) == entries(g).remove(g[j]->0.key),
        distinct_keys(g.update(j, None)),
{
    let h = g.update(j, None);
    let n = g.len() as int;
    let key = g[j]->0.key;
    assert(distinct_keys(h)) by {
        assert forall|p: int, q: int|
            0 <= p < h.len() && 0 <= q < h.len() && p != q && (#[trigger] h[p]) is Some && (
            #[trigger] h[q]) is Some implies h[p]->0.key != h[q]->0.key by {
            assert(g[p] is Some && g[q] is Some);
        }
    }
    lemma_entries(g, n);
    lemma_entries(h, n);
    assert forall|k: K| #[trigger] entries(h).contains_key(k) <==> entries(g).remove(key).contains_key(
        k,
    ) by {
        if key_at(h, n, k) {
            let p = choose|p: int| 0 <= p < n && (#[trigger] h[p]) is Some && h[p]->0.key == k;
            assert(g[p] is Some);
            assert(g[j] is Some);
            assert(key_at(g, n, k));
        }
        if key_at(g, n, k) && k != key {
            let p = choose|p: int| 0 <= p < n && (#[trigger] g[p]) is Some && g[p]->0.key == k;
            assert(h[p] is Some);
            assert(key_at(h, n, k));
        }
    }
    assert forall|k: K| entries(h).contains_key(k) implies #[trigger] entries(h)[k] == entries(
        g,
    ).remove(key)[k] by {
        let p = choose|p: int| 0 <= p < n && (#[trigger] h[p]) is Some && h[p]->0.key == k;
        assert(h[p] is Some);
        assert(g[p] is Some);
    }
    assert(entries(h) =~= entries(g).remove(key));
}

/// If probing from the home of a hash meets an empty bucket before it meets the
/// hash and key, no bucket holds them.
pub proof fn lemma_probe_miss<K, V>(g: Seq<Option<Entry<K, V>>>, bits: u32, hash: u64, key: K, j: int)
    requires
        placed(g, bits),
        bits <= 62,
        0 <= j < g.len(),
        g[j] is None,
        forall|q: int|
            0 <= q < g.len() && in_run(home(hash, bits), q, j) ==> (#[trigger] g[q]) is Some
                && !entry_is(g[q]->0, hash, key),
    ensures
        absent(g, hash, key),
{
    lemma_home_bound(hash, bits);
    assert forall|p: int| !slot_is(g, p, hash, key) by {
        if slot_is(g, p, hash, key) {
            assert(g[p] is Some);
            if !in_run(home(hash, bits), p, j) {
                assert(in_run(home(g[p]->0.hash, bits), j, p));
                assert(g[j] is Some);
            }
        }
    }
}

/// Putting an entry into an empty bucket that probing from its home reaches keeps
/// the array fit for probing.
pub proof fn lemma_place<K, V>(g: Seq<Option<Entry<K, V>>>, bits: u32, j: int, e: Entry<K, V>)
    requires
        placed(g, bits),
        0 <= j < g.len(),
        forall|q: int| 0 <= q < g.len() && in_run(home(e.hash, bits), q, j) ==> (#[trigger] g[q]) is Some,
    ensures
        placed(g.update(j, Some(e)), bits),
{
    let h = g.update(j, Some(e));
    assert forall|p: int, q: int|
        0 <= p < h.len() && 0 <= q < h.len() && (#[trigger] h[p]) is Some && in_run(
            home(h[p]->0.hash, bits),
            q,
            p,
        ) implies (#[trigger] h[q]) is Some by {
        if p != j {
            assert(g[p] is Some);
            if q != j {
                assert(g[q] is Some);
            }
        } else if q != j {
            assert(g[q] is Some);
        }
    }
}

/// The pairs of the buckets are the pairs of the map that the buckets hold: each
/// has a key of the map with its value, and each key of the map is among them.
pub proof fn lemma_pairs_entries<K, V>(g: Seq<Option<Entry<K, V>>>)
    requires
        distinct_keys(g),
    ensures
        forall|i: int|
            0 <= i < pairs(g, 0, g.len() as int).len() ==> entries(g).contains_key(
                (#[trigger] pairs(g, 0, g.len() as int)[i]).0,
            ) && entries(g)[pairs(g, 0, g.len() as int)[i].0] == pairs(g, 0, g.len() as int)[i].1,
        forall|k: K|
            #[trigger] entries(g).contains_key(k) ==> exists|i: int|
                0 <= i < pairs(g, 0, g.len() as int).len() && (#[trigger] pairs(
                    g,
                    0,
                    g.len() as int,
                )[i]).0 == k,
        pairs(g, 0, g.len() as int).len() == entries(g).dom().len(),
{
    let n = g.len() as int;
    let all = pairs(g, 0, n);
    let occ = occupied(g, 0, n);
    lemma_entries(g, n);
    lemma_occupied_members(g, 0, n);
    assert forall|i: int| 0 <= i < all.len() implies entries(g).contains_key((#[trigger] all[i]).0)
        && entries(g)[all[i].0] == all[i].1 by {
        assert(g[occ[i]] is Some);
    }
    assert forall|k: K| #[trigger] entries(g).contains_key(k) implies exists|i: int|
        0 <= i < all.len() && (#[trigger] all[i]).0 == k by {
        let p = choose|p: int| 0 <= p < n && (#[trigger] g[p]) is Some && g[p]->0.key == k;
        assert(occ.contains(p));
        let i = choose|i: int| 0 <= i < occ.len() && occ[i] == p;
        assert(all[i].0 == k);
    }
}

/// Rewriting the values of the entries leaves the array the array of a map in
/// good order, with the keys it had.
pub proof fn lemma_rewritten_ok<K: TableKey, V, S: HashStrategy>(
    g: Seq<Option<Entry<K, V>>>,
    h: Seq<Option<Entry<K, V>>>,
    bits: u32,
    strategy: S,
    size: int,
)
    requires
        table_ok(g, bits, strategy, size),
        h.len() == g.len(),
        forall|i: int|
            0 <= i < g.len() ==> if g[i] is Some {
                (#[trigger] h[i]) is Some && h[i]->0.hash == g[i]->0.hash && h[i]->0.key == g[i]->0.key
            } else {
                h[i] is None
            },
    ensures
        table_ok(h, bits, strategy, size),
        entries(h).dom() == entries(g).dom(),
{
    let n = g.len() as int;
    assert forall|i: int| 0 <= i < n implies (#[trigger] g[i] is Some) == (h[i + 0] is Some) by {
        assert(h[i] is Some || h[i] is None);
    }
    crate::table::lemma_occupied_local(g, h, 0, n, 0);
    assert(placed(h, bits)) by {
        assert forall|p: int, q: int|
            0 <= p < h.len() && 0 <= q < h.len() && (#[trigger] h[p]) is Some && in_run(
                home(h[p]->0.hash, bits),
                q,
                p,
            ) implies (#[trigger] h[q]) is Some by {
            assert(g[p] is Some);
            assert(g[q] is Some);
        }
    }
    assert(unique(h)) by {
        assert forall|a: int, b: int|
            0 <= a < h.len() && 0 <= b < h.len() && a != b && (#[trigger] h[a]) is Some && (
            #[trigger] h[b]) is Some implies !entry_is(h[a]->0, h[b]->0.hash, h[b]->0.key) by {
            assert(g[a] is Some && g[b] is Some);
        }
    }
    assert(keyed(h, strategy)) by {
        assert forall|p: int| 0 <= p < h.len() && (#[trigger] h[p]) is Some implies h[p]->0.hash
            == strategy.spec_hash(h[p]->0.key.code()) by {
            assert(g[p] is Some);
        }
    }
    lemma_distinct_keys(g, strategy);
    lemma_distinct_keys(h, strategy);
    lemma_entries(g, n);
    lemma_entries(h, n);
    assert forall|k: K| entries(h).dom().contains(k) <==> entries(g).dom().contains(k) by {
        if key_at(h, n, k) {
            let p = choose|p: int| 0 <= p < n && (#[trigger] h[p]) is Some && h[p]->0.key == k;
            assert(g[p] is Some);
            assert(key_at(g, n, k));
        }
        if key_at(g, n, k) {
            let p = choose|p: int| 0 <= p < n && (#[trigger] g[p]) is Some && g[p]->0.key == k;
            assert(h[p] is Some);
            assert(key_at(h, n, k));
        }
    }
    assert(entries(h).dom() =~= entries(g).dom());
}

/// How far bucket `x` lies after bucket `p`, going upwards and around the end of
/// an array of `cap` buckets.
pub open spec fn rel(x: int, p: int, cap: int) -> int {
    if x >= p {
        x - p
    } else {
        x + cap - p
    }
}

/// Every entry that lies less than `steps` buckets after `p`, or more than
/// `gap` buckets after it, can be found by probing from its home.
pub open spec fn settled<K, V>(
    g: Seq<Option<Entry<K, V>>>,
    bits: u32,
    p: int,
    steps: int,
    gap: int,
) -> bool {
    forall|x: int, y: int|
        0 <= x < g.len() && 0 <= y < g.len() && (#[trigger] g[x]) is Some && (rel(
            x,
            p,
            g.len() as int,
        ) < steps || rel(x, p, g.len() as int) > gap) && in_run(home(g[x]->0.hash, bits), y, x)
            ==> (#[trigger] g[y]) is Some
}

/// What holds while the entries behind an emptied bucket `p` are put in place
/// anew: the first `steps` buckets from `p` on have been gone through, the buckets
/// after them are as they were in the array `g0`, bucket `e0` is empty, and the
/// entries that are not still to come can be found by probing.
pub open spec fn shifting<K, V>(
    g0: Seq<Option<Entry<K, V>>>,
    g: Seq<Option<Entry<K, V>>>,
    bits: u32,
    p: int,
    steps: int,
    e0: int,
) -> bool {
    let cap = g.len() as int;
    &&& bits <= 62
    &&& placed(g0, bits)
    &&& g.len() == g0.len()
    &&& 0 <= p < cap
    &&& 0 <= e0 < cap
    &&& g0[e0] is None
    &&& 1 <= steps <= rel(e0, p, cap)
    &&& forall|x: int| 0 <= x < cap && rel(x, p, cap) >= steps ==> #[trigger] g[x] == g0[x]
    &&& forall|x: int| 0 <= x < cap && 1 <= rel(x, p, cap) < steps ==> (#[trigger] g0[x]) is Some
    &&& settled(g, bits, p, steps, rel(e0, p, cap))
}

/// Emptying bucket `p` begins the putting in place anew.
pub proof fn lemma_shift_start<K, V>(g0: Seq<Option<Entry<K, V>>>, bits: u32, p: int, e0: int)
    requires
        bits <= 62,
        placed(g0, bits),
        0 <= p < g0.len(),
        g0[p] is Some,
        0 <= e0 < g0.len(),
        g0[e0] is None,
    ensures
        shifting(g0, g0.update(p, None), bits, p, 1, e0),
{
    let g = g0.update(p, None);
    let cap = g.len() as int;
    let gap = rel(e0, p, cap);
    assert forall|x: int, y: int|
        0 <= x < g.len() && 0 <= y < g.len() && (#[trigger] g[x]) is Some && (rel(x, p, cap) < 1
            || rel(x, p, cap) > gap) && in_run(home(g[x]->0.hash, bits), y, x) implies (
    #[trigger] g[y]) is Some by {
        lemma_home_bound(g[x]->0.hash, bits);
        assert(g0[x] is Some);
        assert(g0[y] is Some);
        if y == p {
            assert(in_run(home(g0[x]->0.hash, bits), e0, x));
            assert(g0[e0] is Some);
        }
    }
}

/// One entry put in place anew: the entry of the next bucket `q` is taken out
/// and put into the first empty bucket `j` on its way from its home.
pub proof fn lemma_shift_step<K, V>(
    g0: Seq<Option<Entry<K, V>>>,
    g: Seq<Option<Entry<K, V>>>,
    bits: u32,
    p: int,
    steps: int,
    e0: int,
    q: int,
    j: int,
)
    requires
        shifting(g0, g, bits, p, steps, e0),
        0 <= q < g.len(),
        rel(q, p, g.len() as int) == steps,
        g[q] is Some,
        0 <= j < g.len(),
        g.update(q, None)[j] is None,
        forall|y: int|
            0 <= y < g.len() && in_run(home(g[q]->0.hash, bits), y, j) ==> (#[trigger] g.update(
                q,
                None,
            )[y]) is Some,
    ensures
        shifting(g0, g.update(q, None).update(j, g[q]), bits, p, steps + 1, e0),
        rel(j, p, g.len() as int) <= steps,
{
    let cap = g.len() as int;
    let gap = rel(e0, p, cap);
    let g1 = g.update(q, None);
    let g2 = g1.update(j, g[q]);
    let h = home(g[q]->0.hash, bits);
    lemma_home_bound(g[q]->0.hash, bits);
    assert(g[q] == g0[q]);
    assert(g[e0] == g0[e0]);
    // The way of the entry to its old bucket was occupied, so it does not pass the
    // empty bucket, and the first empty bucket on it lies at or before the old one.
    assert(!in_run(h, e0, q)) by {
        if in_run(h, e0, q) {
            assert(g0[e0] is Some);
        }
    }
    assert(rel(j, p, cap) <= steps) by {
        if rel(j, p, cap) > steps {
            assert(in_run(h, q, j)) by {
                if !in_run(h, q, j) {
                    // Then `j` lies on the old way, where every bucket was occupied.
                    assert(in_run(h, j, q));
                    assert(g0[j] is Some);
                    assert(g[j] == g0[j]);
                }
            }
            assert(g1[q] is Some);
        }
    }
    assert forall|x: int| 0 <= x < cap && rel(x, p, cap) >= steps + 1 implies #[trigger] g2[x]
        == g0[x] by {
        assert(g[x] == g0[x]);
    }
    assert forall|x: int| 0 <= x < cap && 1 <= rel(x, p, cap) < steps + 1 implies (
    #[trigger] g0[x]) is Some by {
        if rel(x, p, cap) == steps {
            assert(x == q);
        }
    }
    assert forall|x: int, y: int|
        0 <= x < g2.len() && 0 <= y < g2.len() && (#[trigger] g2[x]) is Some && (rel(x, p, cap)
            < steps + 1 || rel(x, p, cap) > gap) && in_run(home(g2[x]->0.hash, bits), y, x) implies (
    #[trigger] g2[y]) is Some by {
        lemma_home_bound(g2[x]->0.hash, bits);
        if x == j {
            assert(g1[y] is Some);
        } else {
            assert(g[x] is Some);
            assert(x != q);
            let hx = home(g[x]->0.hash, bits);
            assert(!in_run(hx, e0, x)) by {
                if in_run(hx, e0, x) {
                    assert(g[e0] is Some);
                }
            }
            assert(g[y] is Some);
            assert(y != q || j == q);
        }
    }
}

/// When the next bucket is empty, every entry is in place.
pub proof fn lemma_shift_done<K, V>(
    g0: Seq<Option<Entry<K, V>>>,
    g: Seq<Option<Entry<K, V>>>,
    bits: u32,
    p: int,
    steps: int,
    e0: int,
    q: int,
)
    requires
        shifting(g0, g, bits, p, steps, e0),
        0 <= q < g.len(),
        rel(q, p, g.len() as int) == steps,
        g[q] is None,
    ensures
        placed(g, bits),
{
    let cap = g.len() as int;
    let gap = rel(e0, p, cap);
    assert(g[q] == g0[q]);
    assert(g[e0] == g0[e0]);
    assert forall|x: int, y: int|
        0 <= x < g.len() && 0 <= y < g.len() && (#[trigger] g[x]) is Some && in_run(
            home(g[x]->0.hash, bits),
            y,
            x,
        ) implies (#[trigger] g[y]) is Some by {
        lemma_home_bound(g[x]->0.hash, bits);
        if !(rel(x, p, cap) < steps || rel(x, p, cap) > gap) {
            // The entry lies between the two empty buckets, where nothing changed.
            let hx = home(g[x]->0.hash, bits);
            assert(g[x] == g0[x]);
            assert(g0[y] is Some);
            assert(!in_run(hx, q, x)) by {
                if in_run(hx, q, x) {
                    assert(g0[q] is Some);
                }
            }
            assert(!in_run(hx, e0, x)) by {
                if in_run(hx, e0, x) {
                    assert(g0[e0] is Some);
                }
            }
            assert(g[y] == g0[y]);
        }
    }
}

/// A hash map with keys of type `K`, values of type `V` and hashing strategy `S`.
#[derive(Clone, Debug)]
pub struct HashMap<K, V, S> {
    table: RawTable<K, V>,
    bits: u32,
    hash_builder: S,
}

impl<K: TableKey, V, S: HashStrategy> View for HashMap<K, V, S> {
    type V = Map<K, V>;

    closed spec fn view(&self) -> Map<K, V> {
        entries(self.table@)
    }
}

/// The first bucket among `from..upto` that is empty or holds this hash and key;
/// `upto` if there is none.
fn scan<K: TableKey, V>(
    buckets: &Vec<Option<Entry<K, V>>>,
    from: usize,
    upto: usize,
    hash: u64,
    key: &K,
) -> (j: usize)
    requires
        from <= upto <= buckets@.len(),
    ensures
        from <= j <= upto,
        forall|q: int|
            from <= q < j ==> (#[trigger] buckets@[q]) is Some && !entry_is(buckets@[q]->0, hash, *key),
        j < upto ==> buckets@[j as int] is None || entry_is(buckets@[j as int]->0, hash, *key),
{
    let mut j: usize = from;
    while j < upto
        invariant
            from <= j <= upto,
            upto <= buckets@.len(),
            forall|q: int|
                from <= q < j ==> (#[trigger] buckets@[q]) is Some && !entry_is(
                    buckets@[q]->0,
                    hash,
                    *key,
                ),
        decreases upto - j,
    {
        match &buckets[j] {
            None => {
                return j;
            },
            Some(entry) => {
                if entry.hash == hash && entry.key.same(key) {
                    return j;
                }
            },
        }
        j += 1;
    }
    j
}

/// The first empty bucket among `from..upto`; `upto` if there is none.
fn scan_empty<K, V>(buckets: &Vec<Option<Entry<K, V>>>, from: usize, upto: usize) -> (j: usize)
    requires
        from <= upto <= buckets@.len(),
    ensures
        from <= j <= upto,
        forall|q: int| from <= q < j ==> (#[trigger] buckets@[q]) is Some,
        j < upto ==> buckets@[j as int] is None,
{
    let mut j: usize = from;
    while j < upto && buckets[j].is_some()
        invariant
            from <= j <= upto,
            upto <= buckets@.len(),
            forall|q: int| from <= q < j ==> (#[trigger] buckets@[q]) is Some,
        decreases upto - j,
    {
        j += 1;
    }
    j
}

impl<K: TableKey + Send + Sync, V: Send + Sync, S: HashStrategy + Sync> HashMap<K, V, S> {
    /// The buckets of the map.
    pub closed spec fn slots(&self) -> Seq<Option<Entry<K, V>>> {
        self.table@
    }

    /// The array of the map has `2^bits` buckets.
    pub closed spec fn spec_bits(&self) -> u32 {
        self.bits
    }

    /// The hashing strategy of the map.
    pub closed spec fn strategy(&self) -> S {
        self.hash_builder
    }

    /// The value of the counter of the array.
    pub closed spec fn counter(&self) -> int {
        self.table.spec_size() as int
    }

    /// The map is in good order.
    pub open spec fn wf(&self) -> bool {
        table_ok(self.slots(), self.spec_bits(), self.strategy(), self.counter())
    }

    /// The view of the map is the map that its buckets hold.
    pub proof fn lemma_view(&self)
        ensures
            self@ == entries(self.slots()),
    {
    }

    /// An empty map with the given hashing strategy.
    pub fn with_hasher(hash_builder: S) -> (m: Self)
        ensures
            m.wf(),
            m@ == Map::<K, V>::empty(),
            m.strategy() == hash_builder,
    {
        proof {
            lemma2_to64();
        }
        let table: RawTable<K, V> = RawTable::new(32);
        proof {
            lemma_occupied_none(table@, 0, 32);
            assert(entries(table@) =~= Map::<K, V>::empty()) by {
                lemma_entries(table@, 32);
                assert forall|k: K| !(#[trigger] entries(table@).contains_key(k)) by {
                    if key_at(table@, 32, k) {
                        let p = choose|p: int| 0 <= p < 32 && (#[trigger] table@[p]) is Some && table@[p]->0.key == k;
                        assert(table@[p] is None);
                    }
                }
            }
        }
        HashMap { table, bits: 5, hash_builder }
    }

    /// An empty map with the given hashing strategy and with room for `capacity`
    /// keys.
    pub fn with_capacity_and_hasher(capacity: usize, hash_builder: S) -> (m: Self)
        requires
            capacity <= usize::MAX / 8,
        ensures
            m.wf(),
            m@ == Map::<K, V>::empty(),
            m.strategy() == hash_builder,
            m.slots().len() == capacity_of(m.spec_bits()),
            capacity + capacity / 10 < capacity_of(m.spec_bits()),
            5 <= m.spec_bits(),
            m.spec_bits() > 5 ==> capacity_of((m.spec_bits() - 1) as u32) <= capacity + capacity
                / 10,
    {
        let bits = bits_for(capacity, 0);
        let cap = crate::segment::capacity(bits);
        let table: RawTable<K, V> = RawTable::new(cap);
        proof {
            lemma_occupied_none(table@, 0, cap as int);
            assert(entries(table@) =~= Map::<K, V>::empty()) by {
                lemma_entries(table@, cap as int);
                assert forall|k: K| !(#[trigger] entries(table@).contains_key(k)) by {
                    if key_at(table@, cap as int, k) {
                        let p = choose|p: int| 0 <= p < cap && (#[trigger] table@[p]) is Some && table@[p]->0.key == k;
                        assert(table@[p] is None);
                    }
                }
            }
        }
        HashMap { table, bits, hash_builder }
    }

    /// An empty map with the strategy that a new table starts with.
    pub fn default() -> (m: Self)
        ensures
            m.wf(),
            m@ == Map::<K, V>::empty(),
    {
        Self::with_hasher(S::fresh())
    }

    /// A map over a table that was built for the strategy.
    pub fn from_parts(table: RawTable<K, V>, bits: u32, hash_builder: S) -> (m: Self)
        requires
            table_ok(table@, bits, hash_builder, table.spec_size() as int),
        ensures
            m.wf(),
            m.slots() == table@,
            m.spec_bits() == bits,
            m.strategy() == hash_builder,
            m@ == entries(table@),
    {
        HashMap { table, bits, hash_builder }
    }

    /// Gives up the map for its table and its strategy.
    pub fn into_parts(self) -> (r: (RawTable<K, V>, u32, S))
        ensures
            r.0@ == self.slots(),
            r.0.spec_size() == self.counter(),
            r.1 == self.spec_bits(),
            r.2 == self.strategy(),
    {
        (self.table, self.bits, self.hash_builder)
    }

    /// The table of the map, for reading.
    pub fn table(&self) -> (t: &RawTable<K, V>)
        ensures
            t@ == self.slots(),
            t.spec_size() == self.counter(),
    {
        &self.table
    }

    /// The table of the map, for a traversal that rewrites values. What the
    /// traversal leaves in the table is what the map holds afterwards.
    pub fn table_mut(&mut self) -> (t: &mut RawTable<K, V>)
        ensures
            t@ == old(self).slots(),
            t.spec_size() == old(self).counter(),
            final(self).slots() == final(t)@,
            final(self).counter() == final(t).spec_size(),
            final(self).spec_bits() == old(self).spec_bits(),
            final(self).strategy() == old(self).strategy(),
    {
        &mut self.table
    }

    /// The pairs of the map, met by walking the buckets one after the other.
    pub fn iter(&self) -> (r: Vec<(&K, &V)>)
        ensures
            pairs_of_refs(r@) == pairs(self.slots(), 0, self.slots().len() as int),
    {
        self.table.iter()
    }

    /// The keys of the map, met by walking the buckets one after the other.
    pub fn keys(&self) -> (r: Vec<&K>)
        ensures
            items_of_refs(r@) == keys(self.slots(), 0, self.slots().len() as int),
    {
        self.table.keys()
    }

    /// The values of the map, met by walking the buckets one after the other.
    pub fn values(&self) -> (r: Vec<&V>)
        ensures
            items_of_refs(r@) == values(self.slots(), 0, self.slots().len() as int),
    {
        self.table.values()
    }

    /// The hashing strategy of the map.
    pub fn hasher(&self) -> (s: &S)
        ensures
            *s == self.strategy(),
    {
        &self.hash_builder
    }

    /// The number of keys in the map.
    pub fn len(&self) -> (n: usize)
        requires
            self.wf(),
        ensures
            n == self@.len(),
            self@.dom().finite(),
    {
        proof {
            lemma_distinct_keys(self.table@, self.hash_builder);
            lemma_entries(self.table@, self.table@.len() as int);
        }
        self.table.size()
    }

    /// Whether the map has no key.
    pub fn is_empty(&self) -> (b: bool)
        requires
            self.wf(),
        ensures
            b == (self@.len() == 0),
    {
        self.len() == 0
    }

    /// The number of buckets of the map.
    pub fn capacity(&self) -> (c: usize)
        ensures
            c == self.slots().len(),
    {
        self.table.capacity()
    }

    /// The bucket that holds this hash and key, if any.
    fn find(&self, hash: u64, key: &K) -> (r: Option<usize>)
        requires
            self.wf(),
        ensures
            match r {
                Some(p) => slot_is(self.slots(), p as int, hash, *key),
                None => absent(self.slots(), hash, *key),
            },
    {
        let buckets = self.table.buckets();
        let cap = buckets.len();
        let start = home_index(hash, self.bits);
        let j = scan(buckets, start, cap, hash, key);
        if j < cap {
            if buckets[j].is_some() {
                return Some(j);
            }
            proof {
                lemma_probe_miss(buckets@, self.bits, hash, *key, j as int);
            }
            return None;
        }
        let j = scan(buckets, 0, start, hash, key);
        if j < start {
            if buckets[j].is_some() {
                return Some(j);
            }
            proof {
                lemma_probe_miss(buckets@, self.bits, hash, *key, j as int);
            }
            return None;
        }
        proof {
            assert forall|p: int| !slot_is(buckets@, p, hash, *key) by {
                if slot_is(buckets@, p, hash, *key) {
                    assert(buckets@[p] is Some);
                }
            }
        }
        None
    }

    /// The value under `key`, if the map has the key.
    pub fn get(&self, key: &K) -> (r: Option<&V>)
        requires
            self.wf(),
        ensures
            match r {
                Some(v) => self@.contains_key(*key) && *v == self@[*key],
                None => !self@.contains_key(*key),
            },
    {
        let hash = make_hash(&self.hash_builder, key);
        proof {
            lemma_distinct_keys(self.table@, self.hash_builder);
            lemma_entries(self.table@, self.table@.len() as int);
        }
        match self.find(hash, key) {
            Some(p) => {
                let entry = self.table.buckets()[p].as_ref().unwrap();
                proof {
                    assert(self.table@[p as int] is Some);
                }
                Some(&entry.value)
            },
            None => {
                proof {
                    if key_at(self.table@, self.table@.len() as int, *key) {
                        let p = choose|p: int|
                            0 <= p < self.table@.len() && (#[trigger] self.table@[p]) is Some
                                && self.table@[p]->0.key == *key;
                        assert(slot_is(self.table@, p, hash, *key));
                    }
                }
                None
            },
        }
    }

    /// Whether the map has the key.
    pub fn contains_key(&self, key: &K) -> (b: bool)
        requires
            self.wf(),
        ensures
            b == self@.contains_key(*key),
    {
        self.get(key).is_some()
    }

    /// Makes room for `additional` more keys, so that they can be inserted without
    /// the table growing in between. The map holds what it held.
    pub fn reserve(&mut self, additional: usize)
        requires
            old(self).wf(),
            old(self)@.len() + additional <= usize::MAX / 8,
        ensures
            final(self).wf(),
            final(self)@ == old(self)@,
            final(self).strategy() == old(self).strategy(),
            final(self).counter() == old(self).counter(),
            final(self).counter() + additional + (final(self).counter() + additional) / 10
                < capacity_of(final(self).spec_bits()),
    {
        proof {
            lemma_distinct_keys(self.table@, self.hash_builder);
            lemma_entries(self.table@, self.table@.len() as int);
            lemma_occupied_members(self.table@, 0, self.table@.len() as int);
        }
        let need = self.table.size() + additional;
        if need + need / 10 < self.table.capacity() {
            return;
        }
        let ghost g = self.table@;
        let mut table: RawTable<K, V> = RawTable::new(0);
        core::mem::swap(&mut self.table, &mut table);
        let items = table.into_par_iter().drive_unindexed();
        let ghost drained = items@;
        let Built { table, bits, rounds } = build(items, &self.hash_builder, 0, additional);
        proof {
            lemma_built_map(drained, self.hash_builder, table@, bits);
            lemma_collected_pairs(g, g.len() as int);
            lemma_entries(table@, table@.len() as int);
        }
        self.table = table;
        self.bits = bits;
    }

    /// Puts `value` under `key`, and hands out the value that was there before, if
    /// the map had the key.
    pub fn insert(&mut self, key: K, value: V) -> (before: Option<V>)
        requires
            old(self).wf(),
            old(self)@.len() < usize::MAX / 8,
        ensures
            final(self).wf(),
            final(self)@ == old(self)@.insert(key, value),
            final(self).strategy() == old(self).strategy(),
            before == if old(self)@.contains_key(key) {
                Some(old(self)@[key])
            } else {
                None::<V>
            },
    {
        self.reserve(1);
        let hash = make_hash(&self.hash_builder, &key);
        let ghost g = self.table@;
        let ghost n = g.len() as int;
        proof {
            lemma_distinct_keys(g, self.hash_builder);
            lemma_entries(g, n);
            lemma_home_bound(hash, self.bits);
            lemma_occupied_members(g, 0, n);
        }
        let cap = self.table.capacity();
        let start = home_index(hash, self.bits);
        let mut j = scan(self.table.buckets(), start, cap, hash, &key);
        if j >= cap {
            j = scan(self.table.buckets(), 0, start, hash, &key);
            proof {
                if j >= start {
                    // Every bucket is occupied, yet the counter is below their number.
                    let e = lemma_exists_empty(g, n);
                    assert(g[e] is Some);
                }
            }
        }
        let entry = Entry { hash, key, value };
        proof {
            assert forall|q: int| 0 <= q < n && in_run(home(hash, self.bits), q, j as int) implies (
            #[trigger] g[q]) is Some && !entry_is(g[q]->0, hash, key) by {}
            lemma_place(g, self.bits, j as int, entry);
            lemma_count_update(g, j as int, entry);
            if g[j as int] is None {
                lemma_probe_miss(g, self.bits, hash, key, j as int);
            }
            let h = g.update(j as int, Some(entry));
            assert(unique(h)) by {
                assert forall|a: int, b: int|
                    0 <= a < h.len() && 0 <= b < h.len() && a != b && (#[trigger] h[a]) is Some && (
                    #[trigger] h[b]) is Some implies !entry_is(h[a]->0, h[b]->0.hash, h[b]->0.key) by {
                    if a == j {
                        assert(g[b] is Some);
                        assert(!slot_is(g, b, hash, key) || g[j as int] is Some);
                    } else if b == j {
                        assert(g[a] is Some);
                        assert(!slot_is(g, a, hash, key) || g[j as int] is Some);
                    } else {
                        assert(g[a] is Some && g[b] is Some);
                    }
                }
            }
            assert(keyed(h, self.hash_builder)) by {
                assert forall|p: int| 0 <= p < h.len() && (#[trigger] h[p]) is Some implies h[p]->0.hash
                    == self.hash_builder.spec_hash(h[p]->0.key.code()) by {
                    if p != j {
                        assert(g[p] is Some);
                    }
                }
            }
            lemma_distinct_keys(h, self.hash_builder);
            lemma_entries_write(g, j as int, entry);
            if g[j as int] is None {
                if key_at(g, n, key) {
                    let p = choose|p: int| 0 <= p < n && (#[trigger] g[p]) is Some && g[p]->0.key == key;
                    assert(slot_is(g, p, hash, key));
                }
            } else {
                assert(g[j as int] is Some);
            }
        }
        let before = self.table.write(j, entry);
        match before {
            Some(old_entry) => Some(old_entry.value),
            None => {
                let size = self.table.size();
                self.table.set_size(size + 1);
                None
            },
        }
    }

    /// Takes `key` out of the map, and hands out the value that was under it, if
    /// the map had the key.
    pub fn remove(&mut self, key: &K) -> (before: Option<V>)
        requires
            old(self).wf(),
        ensures
            final(self).wf(),
            final(self)@ == old(self)@.remove(*key),
            final(self).strategy() == old(self).strategy(),
            before == if old(self)@.contains_key(*key) {
                Some(old(self)@[*key])
            } else {
                None::<V>
            },
    {
        let hash = make_hash(&self.hash_builder, key);
        let ghost g = self.table@;
        let ghost n = g.len() as int;
        proof {
            lemma_distinct_keys(g, self.hash_builder);
            lemma_entries(g, n);
            lemma_occupied_members(g, 0, n);
        }
        match self.find(hash, key) {
            None => {
                proof {
                    if key_at(g, n, *key) {
                        let p = choose|p: int| 0 <= p < n && (#[trigger] g[p]) is Some && g[p]->0.key == *key;
                        assert(slot_is(g, p, hash, *key));
                    }
                    assert(entries(g).remove(*key) =~= entries(g));
                }
                None
            },
            Some(p) => {
                let ghost e0: int = lemma_exists_empty(g, n);
                let taken = self.table.clear(p);
                proof {
                    assert(g[p as int] is Some);
                    lemma_entries_clear(g, p as int);
                    lemma_count_clear(g, p as int);
                    lemma_shift_start(g, self.bits, p as int, e0);
                    let h = g.update(p as int, None);
                    assert(unique(h)) by {
                        assert forall|a: int, b: int|
                            0 <= a < h.len() && 0 <= b < h.len() && a != b && (#[trigger] h[a]) is Some
                                && (#[trigger] h[b]) is Some implies !entry_is(
                            h[a]->0,
                            h[b]->0.hash,
                            h[b]->0.key,
                        ) by {
                            assert(g[a] is Some && g[b] is Some);
                        }
                    }
                    assert(keyed(h, self.hash_builder)) by {
                        assert forall|x: int| 0 <= x < h.len() && (#[trigger] h[x]) is Some implies h[x]->0.hash
                            == self.hash_builder.spec_hash(h[x]->0.key.code()) by {
                            assert(g[x] is Some);
                        }
                    }
                }
                let size = self.table.size();
                self.table.set_size(size - 1);
                let cap = self.table.capacity();
                // The entries that follow up to the next empty bucket may have been
                // reached through the emptied one: each is put in place anew.
                let mut q: usize = if p + 1 == cap {
                    0
                } else {
                    p + 1
                };
                let mut steps: usize = 1;
                while steps < cap && self.table.buckets()[q].is_some()
                    invariant
                        cap == n,
                        self.table@.len() == n,
                        g.len() == n,
                        valid_bits(self.bits),
                        capacity_of(self.bits) == n,
                        self.bits == old(self).bits,
                        self.hash_builder == old(self).hash_builder,
                        shifting(g, self.table@, self.bits, p as int, steps as int, e0),
                        0 <= q < cap,
                        rel(q as int, p as int, cap as int) == steps,
                        unique(self.table@),
                        keyed(self.table@, self.hash_builder),
                        entries(self.table@) == entries(g).remove(*key),
                        self.table.spec_size() == size - 1,
                        size - 1 == occupied(self.table@, 0, n).len(),
                    decreases cap - steps,
                {
                    let ghost cur = self.table@;
                    let moved = self.table.clear(q);
                    let ghost emptied = self.table@;
                    match moved {
                        Some(entry) => {
                            let start = home_index(entry.hash, self.bits);
                            let mut j = scan_empty(self.table.buckets(), start, cap);
                            if j >= cap {
                                j = scan_empty(self.table.buckets(), 0, start);
                            }
                            proof {
                                assert(emptied[q as int] is None);
                                assert(j < cap);
                                assert forall|y: int|
                                    0 <= y < n && in_run(home(cur[q as int]->0.hash, self.bits), y, j as int) implies (
                                #[trigger] emptied[y]) is Some by {}
                                lemma_shift_step(g, cur, self.bits, p as int, steps as int, e0, q as int, j as int);
                                lemma_distinct_keys(cur, self.hash_builder);
                                lemma_entries(cur, n);
                                lemma_entries_clear(cur, q as int);
                                lemma_count_clear(cur, q as int);
                                lemma_count_update(emptied, j as int, entry);
                                let placed_again = emptied.update(j as int, Some(entry));
                                assert(unique(placed_again)) by {
                                    assert forall|a: int, b: int|
                                        0 <= a < placed_again.len() && 0 <= b < placed_again.len() && a != b
                                            && (#[trigger] placed_again[a]) is Some && (
                                        #[trigger] placed_again[b]) is Some implies !entry_is(
                                        placed_again[a]->0,
                                        placed_again[b]->0.hash,
                                        placed_again[b]->0.key,
                                    ) by {
                                        if a == j {
                                            assert(cur[b] is Some && cur[q as int] is Some);
                                        } else if b == j {
                                            assert(cur[a] is Some && cur[q as int] is Some);
                                        } else {
                                            assert(cur[a] is Some && cur[b] is Some);
                                        }
                                    }
                                }
                                assert(keyed(placed_again, self.hash_builder)) by {
                                    assert forall|x: int|
                                        0 <= x < placed_again.len() && (#[trigger] placed_again[x]) is Some implies placed_again[x]->0.hash
                                        == self.hash_builder.spec_hash(placed_again[x]->0.key.code()) by {
                                        if x != j {
                                            assert(cur[x] is Some);
                                        } else {
                                            assert(cur[q as int] is Some);
                                        }
                                    }
                                }
                                lemma_distinct_keys(placed_again, self.hash_builder);
                                lemma_entries_write(emptied, j as int, entry);
                                assert(entries(placed_again) =~= entries(cur));
                            }
                            self.table.write(j, entry);
                        },
                        None => {},
                    }
                    q = if q + 1 == cap {
                        0
                    } else {
                        q + 1
                    };
                    steps = steps + 1;
                }
                proof {
                    assert(steps < cap);
                    lemma_shift_done(g, self.table@, self.bits, p as int, steps as int, e0, q as int);
                    lemma_distinct_keys(self.table@, self.hash_builder);
                    lemma_entries(self.table@, n);
                }
                match taken {
                    Some(entry) => Some(entry.value),
                    None => None,
                }
            },
        }
    }
}

impl<K: TableKey + Send + Sync, V: Send + Sync> HashMap<K, V, crate::key::DefaultState> {
    /// An empty map.
    pub fn new() -> (m: Self)
        ensures
            m.wf(),
            m@ == Map::<K, V>::empty(),
    {
        Self::with_hasher(crate::key::DefaultState {  })
    }

    /// An empty map with room for `capacity` keys: its table is the shortest of
    /// at least 32 buckets, a power of two in number, in which `capacity` keys
    /// leave a tenth of the buckets empty.
    pub fn with_capacity(capacity: usize) -> (m: Self)
        requires
            capacity <= usize::MAX / 8,
        ensures
            m.wf(),
            m@ == Map::<K, V>::empty(),
            m.slots().len() == capacity_of(m.spec_bits()),
            capacity + capacity / 10 < capacity_of(m.spec_bits()),
            5 <= m.spec_bits(),
            m.spec_bits() > 5 ==> capacity_of((m.spec_bits() - 1) as u32) <= capacity + capacity
                / 10,
    {
        Self::with_capacity_and_hasher(capacity, crate::key::DefaultState {  })
    }
}

} // verus!
