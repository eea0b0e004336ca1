//! What holds of the RAM cache.

use vstd::prelude::*;

use crate::blockstore::without_keys;
use crate::cache::{
    lemma_held_is_contained, lemma_looked_up_holds, lemma_surplus_is_least, lemma_total_add,
    protected_share, surplus, total_bytes, CacheModel,
};
use crate::linked::{distinct_keys, has_key, slot_of, trimmed, without_key, CacheEntry};

verus! {

/// What is found under a key is exactly what is held under it.
pub proof fn law_lookup_finds_what_is_held(m: CacheModel, k: Seq<u8>, v: Seq<u8>)
    requires
        m.keys_distinct(),
    ensures
        m.lookup(k) == Some(v) <==> m.holds(k, v),
        m.contains(k) <==> m.lookup(k) is Some,
{
    lemma_looked_up_holds(m, k);
    if m.holds(k, v) {
        lemma_held_is_contained(m, k, v);
        if m.probation.contains((k, v)) {
            let i = choose|i: int| 0 <= i < m.probation.len() && m.probation[i] == (k, v);
            if has_key(m.protected, k) {
                let j = slot_of(m.protected, k);
                assert(m.probation[i].0 != m.protected[j].0);
            }
            let j = slot_of(m.probation, k);
            assert(m.probation[i].0 == k);
            if i != j {
                assert(m.probation[i].0 != m.probation[j].0);
            }
        } else {
            let i = choose|i: int| 0 <= i < m.protected.len() && m.protected[i] == (k, v);
            let j = slot_of(m.protected, k);
            assert(m.protected[i].0 == k);
            if i != j {
                assert(m.protected[i].0 != m.protected[j].0);
            }
        }
    }
}

/// Taking a key out of a list keeps every other entry.
proof fn lemma_others_stay(s: Seq<CacheEntry>, k: Seq<u8>, e: CacheEntry)
    requires
        e.0 != k,
    ensures
        without_key(s, k).contains(e) <==> s.contains(e),
{
    let w = without_key(s, k);
    if has_key(s, k) {
        let at = slot_of(s, k);
        assert(s[at].0 == k);
        if s.contains(e) {
            let i = choose|i: int| 0 <= i < s.len() && s[i] == e;
            if i < at {
                assert(w[i] == e);
            } else {
                assert(w[i - 1] == e);
            }
        }
        if w.contains(e) {
            let i = choose|i: int| 0 <= i < w.len() && w[i] == e;
            if i < at {
                assert(s[i] == e);
            } else {
                assert(s[i + 1] == e);
            }
        }
    }
}

proof fn lemma_same_lookup(a: CacheModel, b: CacheModel, k: Seq<u8>)
    requires
        a.keys_distinct(),
        b.keys_distinct(),
        forall|v: Seq<u8>| #[trigger] a.holds(k, v) <==> b.holds(k, v),
    ensures
        a.lookup(k) == b.lookup(k),
{
    if let Some(v) = a.lookup(k) {
        law_lookup_finds_what_is_held(a, k, v);
        assert(b.holds(k, v));
        law_lookup_finds_what_is_held(b, k, v);
    } else if let Some(v) = b.lookup(k) {
        law_lookup_finds_what_is_held(b, k, v);
        assert(a.holds(k, v));
        law_lookup_finds_what_is_held(a, k, v);
    }
}

/// No key stands twice where one was taken out.
proof fn lemma_still_distinct(m: CacheModel, k: Seq<u8>)
    requires
        m.keys_distinct(),
    ensures
        m.invalidated(k).keys_distinct(),
{
    let after = m.invalidated(k);
    lemma_list_distinct(m.probation, k);
    lemma_list_distinct(m.protected, k);
    assert forall|i: int, j: int|
        0 <= i < after.probation.len() && 0 <= j < after.protected.len() implies (
    #[trigger] after.probation[i]).0 != (#[trigger] after.protected[j]).0 by {
        let x = lemma_comes_from(m.probation, k, i);
        let y = lemma_comes_from(m.protected, k, j);
        assert(m.probation[x].0 != m.protected[y].0);
    }
}

proof fn lemma_comes_from(s: Seq<CacheEntry>, k: Seq<u8>, i: int) -> (x: int)
    requires
        0 <= i < without_key(s, k).len(),
    ensures
        0 <= x < s.len(),
        s[x] == without_key(s, k)[i],
{
    if has_key(s, k) && i >= slot_of(s, k) {
        i + 1
    } else {
        i
    }
}

proof fn lemma_list_distinct(s: Seq<CacheEntry>, k: Seq<u8>)
    requires
        distinct_keys(s),
    ensures
        distinct_keys(without_key(s, k)),
        !has_key(without_key(s, k), k),
{
    let w = without_key(s, k);
    if has_key(s, k) {
        let at = slot_of(s, k);
        assert(s[at].0 == k);
        assert forall|i: int, j: int|
            0 <= i < w.len() && 0 <= j < w.len() && i != j implies (#[trigger] w[i]).0 != (
        #[trigger] w[j]).0 by {
            let a = if i >= at {
                i + 1
            } else {
                i
            };
            let b = if j >= at {
                j + 1
            } else {
                j
            };
            assert(w[i] == s[a] && w[j] == s[b]);
            assert(s[a].0 != s[b].0);
        }
        if has_key(w, k) {
            let i = slot_of(w, k);
            let a = if i >= at {
                i + 1
            } else {
                i
            };
            assert(w[i] == s[a]);
            assert(s[a].0 != s[at].0);
        }
    }
}

/// Taking out a key takes out its value and leaves every other one, and counts
/// nothing.
pub proof fn law_invalidate(m: CacheModel, k: Seq<u8>, other: Seq<u8>)
    requires
        m.keys_distinct(),
    ensures
        m.invalidated(k).lookup(k) is None,
        other != k ==> m.invalidated(k).lookup(other) == m.lookup(other),
        m.invalidated(k).hits == m.hits,
        m.invalidated(k).misses == m.misses,
        m.invalidated(k).evictions == m.evictions,
        m.invalidated(k).promotions == m.promotions,
{
    crate::cache::lemma_invalidated_gone(m, k);
    if other != k {
        lemma_still_distinct(m, k);
        let after = m.invalidated(k);
        assert forall|v: Seq<u8>| #[trigger] after.holds(other, v) <==> m.holds(other, v) by {
            lemma_others_stay(m.probation, k, (other, v));
            lemma_others_stay(m.protected, k, (other, v));
        }
        lemma_same_lookup(after, m, other);
    }
}

/// Nothing is evicted while there is room: an insertion then changes the value
/// under its key, which is now the newest on probation, and nothing else.
pub proof fn law_insert_with_room(m: CacheModel, k: Seq<u8>, v: Seq<u8>)
    requires
        m.keys_distinct(),
        m.invalidated(k).resident() + v.len() <= m.cap,
    ensures
        m.inserted(k, v).probation == without_key(m.probation, k).push((k, v)),
        m.inserted(k, v).protected == without_key(m.protected, k),
        m.inserted(k, v).evictions == m.evictions,
        m.inserted(k, v).lookup(k) == Some(v),
{
    let base = m.invalidated(k);
    let grown = CacheModel { probation: base.probation.push((k, v)), ..base };
    let order = grown.eviction_order();
    lemma_total_add(grown.probation, grown.protected);
    lemma_total_add(base.probation, seq![(k, v)]);
    assert(base.probation + seq![(k, v)] =~= base.probation.push((k, v)));
    assert(seq![(k, v)].drop_first() =~= Seq::empty());
    assert(total_bytes(Seq::<CacheEntry>::empty()) == 0);
    assert(total_bytes(seq![(k, v)]) == v.len());
    assert(surplus(order, m.cap) == 0);
    let after = m.inserted(k, v);
    assert(after.probation =~= grown.probation);
    assert(after.protected =~= grown.protected);
    lemma_list_distinct(m.probation, k);
    lemma_list_distinct(m.protected, k);
    let n = base.probation.len() as int;
    assert(after.probation[n] == (k, v));
    assert(has_key(after.probation, k));
    let at = slot_of(after.probation, k);
    if at < n {
        assert(base.probation[at].0 == k);
    }
}

/// Where there is not enough room, entries leave from the front: those on
/// probation before protected ones, each segment's oldest first, and no more of
/// them than have to. Each is counted.
pub proof fn law_eviction(m: CacheModel) -> (n: int)
    ensures
        0 <= n <= m.probation.len() + m.protected.len(),
        m.evicted().probation + m.evicted().protected == (m.probation + m.protected).skip(n),
        n <= m.probation.len() ==> m.evicted().protected == m.protected,
        n > m.probation.len() ==> m.evicted().probation.len() == 0,
        m.evicted().resident() <= m.cap,
        n > 0 ==> total_bytes((m.probation + m.protected).skip(n - 1)) > m.cap,
        m.evictions + n <= u64::MAX ==> m.evicted().evictions == m.evictions + n,
        m.evicted().hits == m.hits,
        m.evicted().misses == m.misses,
        m.evicted().promotions == m.promotions,
{
    let order = m.eviction_order();
    let n = surplus(order, m.cap) as int;
    lemma_surplus_is_least(order, m.cap);
    let after = m.evicted();
    assert(after.probation + after.protected =~= order.skip(n));
    lemma_total_add(after.probation, after.protected);
    assert(n <= m.probation.len() ==> after.protected =~= m.protected);
    n
}

/// The bytes of entries add up, and a value counts with its length.
pub proof fn law_bytes_add_up(a: Seq<CacheEntry>, e: CacheEntry, b: Seq<CacheEntry>)
    ensures
        total_bytes(a.push(e) + b) == total_bytes(a) + e.1.len() + total_bytes(b),
        total_bytes(Seq::<CacheEntry>::empty()) == 0,
{
    lemma_total_add(a.push(e), b);
    lemma_total_add(a, seq![e]);
    assert(a + seq![e] =~= a.push(e));
    assert(seq![e].drop_first() =~= Seq::empty());
    assert(total_bytes(Seq::<CacheEntry>::empty()) == 0);
}

/// A read loses nothing: every value that was cached is cached afterwards, and
/// no more bytes are.
pub proof fn law_read_loses_nothing(m: CacheModel, k: Seq<u8>, other: Seq<u8>, v: Seq<u8>)
    requires
        m.keys_distinct(),
    ensures
        m.holds(other, v) ==> m.looked_up(k).holds(other, v),
        m.looked_up(k).holds(other, v) ==> m.holds(other, v),
        m.looked_up(k).evictions == m.evictions,
{
    lemma_looked_up_holds(m, k);
    let after = m.looked_up(k);
    if m.holds(other, v) {
        if has_key(m.protected, k) {
            let w = m.protected[slot_of(m.protected, k)].1;
            let rest = without_key(m.protected, k);
            if other == k {
                law_lookup_finds_what_is_held(m, k, v);
                assert(after.protected[rest.len() as int] == (k, w));
            } else if m.protected.contains((other, v)) {
                lemma_others_stay(m.protected, k, (other, v));
                let i = choose|i: int| 0 <= i < rest.len() && rest[i] == (other, v);
                assert(after.protected[i] == (other, v));
            }
        } else if has_key(m.probation, k) {
            let w = m.probation[slot_of(m.probation, k)].1;
            let grown = m.protected.push((k, w));
            let rest = without_key(m.probation, k);
            let n = surplus(grown, m.protected_cap) as int;
            lemma_surplus_is_least(grown, m.protected_cap);
            if other != k && m.probation.contains((other, v)) {
                lemma_others_stay(m.probation, k, (other, v));
                let i = choose|i: int| 0 <= i < rest.len() && rest[i] == (other, v);
                assert(after.probation[i] == (other, v));
            } else {
                if other == k {
                    law_lookup_finds_what_is_held(m, k, v);
                    assert(grown[m.protected.len() as int] == (other, v));
                } else {
                    let i = choose|i: int| 0 <= i < m.protected.len() && m.protected[i] == (
                        other,
                        v,
                    );
                    assert(grown[i] == (other, v));
                }
                let i = choose|i: int| 0 <= i < grown.len() && grown[i] == (other, v);
                if i < n {
                    assert(after.probation[rest.len() + i] == (other, v));
                } else {
                    assert(after.protected[i - n] == (other, v));
                }
            }
        }
    }
}

/// A value that is read becomes the most recently used of its segment: on
/// probation it is protected, and where the protected segment is then too large
/// its oldest entries go back on probation, no more of them than have to.
pub proof fn law_promotion(m: CacheModel, k: Seq<u8>) -> (n: int)
    requires
        m.keys_distinct(),
        has_key(m.probation, k),
    ensures
        ({
            let v = m.probation[slot_of(m.probation, k)].1;
            let grown = m.protected.push((k, v));
            let after = m.looked_up(k);
            &&& 0 <= n <= grown.len()
            &&& after.protected == grown.skip(n)
            &&& after.probation == without_key(m.probation, k) + grown.take(n)
            &&& total_bytes(after.protected) <= m.protected_cap
            &&& n > 0 ==> total_bytes(grown.skip(n - 1)) > m.protected_cap
            &&& m.hits < u64::MAX ==> after.hits == m.hits + 1
            &&& m.promotions < u64::MAX ==> after.promotions == m.promotions + 1
            &&& after.misses == m.misses
        }),
{
    let i = slot_of(m.probation, k);
    if has_key(m.protected, k) {
        let j = slot_of(m.protected, k);
        assert(m.probation[i].0 != m.protected[j].0);
    }
    let grown = m.protected.push((k, m.probation[i].1));
    lemma_surplus_is_least(grown, m.protected_cap);
    surplus(grown, m.protected_cap) as int
}

/// A protected value that is read stays protected and becomes the most recently
/// used; a look-up that finds nothing changes nothing but its count.
pub proof fn law_other_lookups(m: CacheModel, k: Seq<u8>)
    ensures
        has_key(m.protected, k) ==> {
            let v = m.protected[slot_of(m.protected, k)].1;
            let after = m.looked_up(k);
            &&& after.protected == without_key(m.protected, k).push((k, v))
            &&& after.probation == m.probation
            &&& m.hits < u64::MAX ==> after.hits == m.hits + 1
            &&& after.promotions == m.promotions
        },
        !m.contains(k) ==> {
            let after = m.looked_up(k);
            &&& after.protected == m.protected
            &&& after.probation == m.probation
            &&& m.misses < u64::MAX ==> after.misses == m.misses + 1
            &&& after.hits == m.hits
        },
{
}

/// The protected segment has four fifths of the budget, up to rounding, and an
/// empty cache has the budget that it was given, but at least one byte.
pub proof fn law_budget(cap_bytes: u64)
    ensures
        cap_bytes >= 10 ==> 5 * protected_share(cap_bytes as nat) <= 4 * cap_bytes,
        cap_bytes >= 10 ==> 5 * protected_share(cap_bytes as nat) + 40 > 4 * cap_bytes,
        CacheModel::empty(cap_bytes).resident() == 0,
        cap_bytes >= 1 ==> CacheModel::empty(cap_bytes).cap == cap_bytes,
        CacheModel::empty(0).cap == 1,
        cap_bytes >= 1 ==> CacheModel::empty(cap_bytes).protected_cap == protected_share(
            cap_bytes as nat,
        ),
        CacheModel::empty(cap_bytes).hits == 0,
        CacheModel::empty(cap_bytes).misses == 0,
        CacheModel::empty(cap_bytes).evictions == 0,
        CacheModel::empty(cap_bytes).promotions == 0,
{
}

/// A list of bounded length takes a new entry at its end and lets the oldest go
/// where it is full, and only there.
pub proof fn law_oldest_goes<K, V>(s: Seq<(K, V)>, e: (K, V), capacity: nat, i: int)
    requires
        s.len() <= capacity,
        capacity > 0,
        0 <= i < s.len(),
    ensures
        trimmed(s.push(e), capacity).len() <= capacity,
        trimmed(s.push(e), capacity).last() == e,
        s.len() < capacity ==> trimmed(s.push(e), capacity)[i] == s[i],
        s.len() == capacity && i > 0 ==> trimmed(s.push(e), capacity)[i - 1] == s[i],
{
}

/// Taking out keys one after the other takes out their values and leaves the
/// others.
pub proof fn law_invalidate_all(m: CacheModel, keys: Seq<Seq<u8>>, n: int, other: Seq<u8>)
    requires
        m.keys_distinct(),
        0 <= n <= keys.len(),
    ensures
        without_keys(m, keys, n).keys_distinct(),
        keys.take(n).contains(other) ==> without_keys(m, keys, n).lookup(other) is None,
        !keys.take(n).contains(other) ==> without_keys(m, keys, n).lookup(other) == m.lookup(other),
    decreases n,
{
    if n > 0 {
        law_invalidate_all(m, keys, n - 1, other);
        let before = without_keys(m, keys, n - 1);
        lemma_still_distinct(before, keys[n - 1]);
        law_invalidate(before, keys[n - 1], other);
        let (a, b) = (keys.take(n - 1), keys.take(n));
        assert(b =~= a.push(keys[n - 1]));
        if b.contains(other) {
            let j = choose|j: int| 0 <= j < b.len() && b[j] == other;
            if other != keys[n - 1] {
                assert(a[j] == other);
            }
        } else {
            assert(b[n - 1] == keys[n - 1]);
            if a.contains(other) {
                let j = choose|j: int| 0 <= j < a.len() && a[j] == other;
                assert(b[j] == other);
            }
        }
    }
}

} // verus!
