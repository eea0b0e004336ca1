//! A strict byte-bounded, frequency-aware RAM cache.

use std::sync::Arc;

use vstd::prelude::*;
use vstd::slice::slice_to_vec;

use crate::linked::{
    distinct_keys, has_key, segment_entries, slot_of, without_key, CacheEntry, Segment,
};

verus! {

/// How many value bytes the entries hold together.
pub open spec fn total_bytes(s: Seq<CacheEntry>) -> nat
    decreases s.len(),
{
    if s.len() == 0 {
        0
    } else {
        s[0].1.len() + total_bytes(s.drop_first())
    }
}

/// How many entries have to leave the front of `s` before the rest holds at
/// most `cap` bytes.
pub open spec fn surplus(s: Seq<CacheEntry>, cap: nat) -> nat
    decreases s.len(),
{
    if s.len() == 0 || total_bytes(s) <= cap {
        0
    } else {
        1 + surplus(s.drop_first(), cap)
    }
}

/// No key occurs in both `a` and `b`.
pub open spec fn disjoint_keys(a: Seq<CacheEntry>, b: Seq<CacheEntry>) -> bool {
    forall|i: int, j: int|
        0 <= i < a.len() && 0 <= j < b.len() ==> (#[trigger] a[i]).0 != (#[trigger] b[j]).0
}

/// The state of a [`RamCache`]: its two segments, each from the least to the
/// most recently used entry, its two limits and its counters.
#[verifier::ext_equal]
pub struct CacheModel {
    pub probation: Seq<CacheEntry>,
    pub protected: Seq<CacheEntry>,
    pub cap: nat,
    pub protected_cap: nat,
    pub hits: u64,
    pub misses: u64,
    pub evictions: u64,
    pub promotions: u64,
}

proof fn lemma_total_push(s: Seq<CacheEntry>, e: CacheEntry)
    ensures
        total_bytes(s.push(e)) == total_bytes(s) + e.1.len(),
    decreases s.len(),
{
    if s.len() == 0 {
        assert(s.push(e).drop_first() =~= s);
        assert(total_bytes(s.push(e).drop_first()) == 0);
    } else {
        lemma_total_push(s.drop_first(), e);
        assert(s.push(e).drop_first() =~= s.drop_first().push(e));
    }
}

/// Byte counts add up over concatenation.
pub proof fn lemma_total_add(a: Seq<CacheEntry>, b: Seq<CacheEntry>)
    ensures
        total_bytes(a + b) == total_bytes(a) + total_bytes(b),
    decreases a.len(),
{
    if a.len() == 0 {
        assert(a + b =~= b);
    } else {
        lemma_total_add(a.drop_first(), b);
        assert((a + b).drop_first() =~= a.drop_first() + b);
    }
}

proof fn lemma_total_remove(s: Seq<CacheEntry>, i: int)
    requires
        0 <= i < s.len(),
    ensures
        total_bytes(s.remove(i)) == total_bytes(s) - s[i].1.len(),
    decreases s.len(),
{
    if i == 0 {
        assert(s.remove(0) =~= s.drop_first());
    } else {
        lemma_total_remove(s.drop_first(), i - 1);
        assert(s.remove(i).drop_first() =~= s.drop_first().remove(i - 1));
    }
}

/// What taking out a key leaves.
proof fn lemma_without(s: Seq<CacheEntry>, k: Seq<u8>)
    requires
        distinct_keys(s),
    ensures
        distinct_keys(without_key(s, k)),
        !has_key(without_key(s, k), k),
        forall|j: int|
            0 <= j < without_key(s, k).len() ==> has_key(s, (#[trigger] without_key(s, k)[j]).0),
        has_key(s, k) ==> total_bytes(without_key(s, k)) == total_bytes(s) - s[slot_of(s, k)].1.len(),
        has_key(s, k) ==> s[slot_of(s, k)].0 == k,
        !has_key(s, k) ==> without_key(s, k) == s,
{
    let w = without_key(s, k);
    if has_key(s, k) {
        let i = slot_of(s, k);
        lemma_total_remove(s, i);
        assert forall|j: int| 0 <= j < w.len() implies has_key(s, (#[trigger] w[j]).0) && w[j].0
            != k by {
            if j < i {
                assert(w[j] == s[j]);
            } else {
                assert(w[j] == s[j + 1]);
            }
        }
    }
}

proof fn lemma_absent_without(s: Seq<CacheEntry>, k: Seq<u8>)
    ensures
        !has_key(s, k) ==> without_key(s, k) == s,
{
}

proof fn lemma_push_distinct(s: Seq<CacheEntry>, e: CacheEntry)
    requires
        distinct_keys(s),
        !has_key(s, e.0),
    ensures
        distinct_keys(s.push(e)),
{
}

/// Moving the first `n` entries of `b` behind `a` keeps every key in one place.
proof fn lemma_split_distinct(a: Seq<CacheEntry>, b: Seq<CacheEntry>, n: int)
    requires
        distinct_keys(a),
        distinct_keys(b),
        disjoint_keys(a, b),
        0 <= n <= b.len(),
    ensures
        distinct_keys(a + b.take(n)),
        distinct_keys(b.skip(n)),
        disjoint_keys(a + b.take(n), b.skip(n)),
{
}

/// A counter of a cache after `n` more events; it wraps at the end of its range.
pub open spec fn counted(counter: u64, n: nat) -> u64 {
    ((counter + n) % 0x1_0000_0000_0000_0000) as u64
}

/// What the protected segment may use of a budget: four fifths, in steps of
/// eight bytes for every whole ten.
pub open spec fn protected_share(cap: nat) -> nat {
    if cap / 10 * 8 >= 1 {
        cap / 10 * 8
    } else {
        1
    }
}

impl CacheModel {
    /// An empty cache with a budget of `cap_bytes`, of which the protected
    /// segment may use four fifths.
    pub open spec fn empty(cap_bytes: u64) -> CacheModel {
        CacheModel {
            probation: Seq::empty(),
            protected: Seq::empty(),
            cap: if cap_bytes >= 1 {
                cap_bytes as nat
            } else {
                1
            },
            protected_cap: if cap_bytes / 10 * 8 >= 1 {
                (cap_bytes / 10 * 8) as nat
            } else {
                1
            },
            hits: 0,
            misses: 0,
            evictions: 0,
            promotions: 0,
        }
    }

    /// How many value bytes are resident.
    pub open spec fn resident(self) -> nat {
        total_bytes(self.probation) + total_bytes(self.protected)
    }

    /// Every key stands in one place.
    pub open spec fn keys_distinct(self) -> bool {
        &&& distinct_keys(self.probation)
        &&& distinct_keys(self.protected)
        &&& disjoint_keys(self.probation, self.protected)
    }

    /// The cache is within its budget, the protected segment within its share
    /// of it, and every key stands in one place.
    pub open spec fn bounded(self) -> bool {
        &&& self.keys_distinct()
        &&& self.resident() <= self.cap
        &&& self.protected_cap == protected_share(self.cap)
        &&& total_bytes(self.protected) <= self.protected_cap
    }

    /// The cache holds a value under `k`.
    pub open spec fn contains(self, k: Seq<u8>) -> bool {
        has_key(self.protected, k) || has_key(self.probation, k)
    }

    /// What is cached under `k`.
    pub open spec fn lookup(self, k: Seq<u8>) -> Option<Seq<u8>> {
        if has_key(self.protected, k) {
            Some(self.protected[slot_of(self.protected, k)].1)
        } else if has_key(self.probation, k) {
            Some(self.probation[slot_of(self.probation, k)].1)
        } else {
            None
        }
    }

    /// The cache holds exactly the value `v` under `k`.
    pub open spec fn holds(self, k: Seq<u8>, v: Seq<u8>) -> bool {
        self.probation.contains((k, v)) || self.protected.contains((k, v))
    }

    /// The oldest protected entries moved back to probation until the
    /// protected segment is within its limit.
    pub open spec fn demoted(self) -> CacheModel {
        let n = surplus(self.protected, self.protected_cap) as int;
        CacheModel {
            probation: self.probation + self.protected.take(n),
            protected: self.protected.skip(n),
            ..self
        }
    }

    /// The entries in the order in which they are evicted.
    pub open spec fn eviction_order(self) -> Seq<CacheEntry> {
        self.probation + self.protected
    }

    /// The first `n` entries in eviction order gone.
    pub open spec fn after_evicting(self, n: int) -> CacheModel {
        let p = self.probation.len() as int;
        CacheModel {
            probation: self.probation.skip(if n <= p {
                n
            } else {
                p
            }),
            protected: self.protected.skip(if n <= p {
                0
            } else {
                n - p
            }),
            evictions: counted(self.evictions, n as nat),
            ..self
        }
    }

    /// The entries that come first in eviction order gone until the rest is
    /// within the cap.
    pub open spec fn evicted(self) -> CacheModel {
        self.after_evicting(surplus(self.eviction_order(), self.cap) as int)
    }

    /// The value under `k` gone.
    pub open spec fn invalidated(self, k: Seq<u8>) -> CacheModel {
        CacheModel {
            probation: without_key(self.probation, k),
            protected: without_key(self.protected, k),
            ..self
        }
    }

    /// `v` cached under `k`, as the newest entry of the probation segment.
    pub open spec fn inserted(self, k: Seq<u8>, v: Seq<u8>) -> CacheModel {
        let m = self.invalidated(k);
        CacheModel { probation: m.probation.push((k, v)), ..m }.evicted()
    }

    /// After a look-up of `k`.
    pub open spec fn looked_up(self, k: Seq<u8>) -> CacheModel {
        if has_key(self.protected, k) {
            let v = self.protected[slot_of(self.protected, k)].1;
            CacheModel {
                protected: without_key(self.protected, k).push((k, v)),
                hits: counted(self.hits, 1),
                ..self
            }
        } else if has_key(self.probation, k) {
            let v = self.probation[slot_of(self.probation, k)].1;
            CacheModel {
                probation: without_key(self.probation, k),
                protected: self.protected.push((k, v)),
                hits: counted(self.hits, 1),
                promotions: counted(self.promotions, 1),
                ..self
            }.demoted()
        } else {
            CacheModel { misses: counted(self.misses, 1), ..self }
        }
    }
}

/// A value that the cache holds is one that it contains.
pub proof fn lemma_held_is_contained(m: CacheModel, k: Seq<u8>, v: Seq<u8>)
    requires
        m.holds(k, v),
    ensures
        m.contains(k),
{
    if m.probation.contains((k, v)) {
        let i = choose|i: int| 0 <= i < m.probation.len() && m.probation[i] == (k, v);
        assert(m.probation[i].0 == k);
    } else {
        let i = choose|i: int| 0 <= i < m.protected.len() && m.protected[i] == (k, v);
        assert(m.protected[i].0 == k);
    }
}

/// What a look-up gives is in the cache, and nothing comes into the cache by it.
pub proof fn lemma_looked_up_holds(m: CacheModel, k: Seq<u8>)
    ensures
        m.lookup(k) is Some ==> m.holds(k, m.lookup(k).unwrap()),
        forall|a: Seq<u8>, b: Seq<u8>| #[trigger] m.looked_up(k).holds(a, b) ==> m.holds(a, b),
{
    let after = m.looked_up(k);
    if has_key(m.protected, k) {
        let i = slot_of(m.protected, k);
        let v = m.protected[i].1;
        assert(m.protected[i] == (k, v));
        assert forall|a: Seq<u8>, b: Seq<u8>| #[trigger] after.holds(a, b) implies m.holds(a, b) by {
            if after.protected.contains((a, b)) {
                let j = choose|j: int| 0 <= j < after.protected.len() && after.protected[j] == (a, b);
                if j < m.protected.len() - 1 {
                    assert(after.protected[j] == m.protected.remove(i)[j]);
                    assert(m.protected[if j < i {
                        j
                    } else {
                        j + 1
                    }] == (a, b));
                }
            }
        }
    } else if has_key(m.probation, k) {
        let i = slot_of(m.probation, k);
        let v = m.probation[i].1;
        assert(m.probation[i] == (k, v));
        let grown = m.protected.push((k, v));
        let rest = m.probation.remove(i);
        let n = surplus(grown, m.protected_cap) as int;
        lemma_surplus_is_least(grown, m.protected_cap);
        assert forall|a: Seq<u8>, b: Seq<u8>| #[trigger] after.holds(a, b) implies m.holds(a, b) by {
            if after.protected.contains((a, b)) {
                let j = choose|j: int| 0 <= j < after.protected.len() && after.protected[j] == (a, b);
                assert(grown[n + j] == (a, b));
                if n + j < m.protected.len() {
                    assert(m.protected[n + j] == (a, b));
                }
            } else {
                let j = choose|j: int| 0 <= j < after.probation.len() && after.probation[j] == (a, b);
                if j < rest.len() {
                    assert(rest[j] == (a, b));
                    assert(m.probation[if j < i {
                        j
                    } else {
                        j + 1
                    }] == (a, b));
                } else {
                    assert(grown[j - rest.len()] == (a, b));
                    if j - rest.len() < m.protected.len() {
                        assert(m.protected[j - rest.len()] == (a, b));
                    }
                }
            }
        }
    }
}

/// Taking a key out brings nothing into the cache.
pub proof fn lemma_invalidated_holds(m: CacheModel, k: Seq<u8>)
    ensures
        forall|a: Seq<u8>, b: Seq<u8>| #[trigger] m.invalidated(k).holds(a, b) ==> m.holds(a, b),
{
    let after = m.invalidated(k);
    assert forall|a: Seq<u8>, b: Seq<u8>| #[trigger] after.holds(a, b) implies m.holds(a, b) by {
        if after.protected.contains((a, b)) {
            let j = choose|j: int| 0 <= j < after.protected.len() && after.protected[j] == (a, b);
            let i = slot_of(m.protected, k);
            assert(m.protected[if has_key(m.protected, k) && j >= i {
                j + 1
            } else {
                j
            }] == (a, b));
        } else {
            let j = choose|j: int| 0 <= j < after.probation.len() && after.probation[j] == (a, b);
            let i = slot_of(m.probation, k);
            assert(m.probation[if has_key(m.probation, k) && j >= i {
                j + 1
            } else {
                j
            }] == (a, b));
        }
    }
}

/// A key that was taken out is not in the cache.
pub proof fn lemma_invalidated_gone(m: CacheModel, k: Seq<u8>)
    requires
        m.keys_distinct(),
    ensures
        !m.invalidated(k).contains(k),
        m.invalidated(k).lookup(k) is None,
{
    lemma_without(m.probation, k);
    lemma_without(m.protected, k);
}

/// Taking out a value makes room, or changes nothing.
pub proof fn lemma_invalidated_is_smaller(m: CacheModel, k: Seq<u8>)
    requires
        m.keys_distinct(),
    ensures
        m.invalidated(k).resident() <= m.resident(),
{
    lemma_without(m.probation, k);
    lemma_without(m.protected, k);
}

/// Everything that is left where a key is taken out, and a value under that key,
/// as one list in which no key occurs twice.
pub proof fn lemma_other_entries(m: CacheModel, k: Seq<u8>, v: Seq<u8>) -> (s: Seq<CacheEntry>)
    requires
        m.keys_distinct(),
    ensures
        distinct_keys(s),
        total_bytes(s) == m.invalidated(k).resident() + v.len(),
        forall|i: int|
            0 <= i < s.len() ==> (#[trigger] s[i]) == (k, v) || (s[i].0 != k && m.holds(
                s[i].0,
                s[i].1,
            )),
{
    let after = m.invalidated(k);
    lemma_without(m.probation, k);
    lemma_without(m.protected, k);
    lemma_invalidated_holds(m, k);
    let rest = after.probation + after.protected;
    let s = rest.push((k, v));
    lemma_total_add(after.probation, after.protected);
    lemma_total_push(rest, (k, v));
    let n = after.probation.len() as int;
    assert forall|i: int| 0 <= i < rest.len() implies (#[trigger] rest[i]).0 != k && m.holds(
        rest[i].0,
        rest[i].1,
    ) by {
        if i < n {
            assert(after.probation[i] == rest[i]);
            assert(has_key(after.probation, rest[i].0));
        } else {
            assert(after.protected[i - n] == rest[i]);
            assert(has_key(after.protected, rest[i].0));
        }
        assert(after.holds(rest[i].0, rest[i].1));
    }
    assert forall|i: int, j: int| 0 <= i < n && n <= j < rest.len() implies (#[trigger] rest[i]).0
        != (#[trigger] rest[j]).0 by {
        assert(has_key(m.probation, after.probation[i].0));
        assert(has_key(m.protected, after.protected[j - n].0));
        let a = slot_of(m.probation, rest[i].0);
        let b = slot_of(m.protected, rest[j].0);
        assert(m.probation[a].0 != m.protected[b].0);
    }
    assert forall|i: int, j: int|
        0 <= i < s.len() && 0 <= j < s.len() && i != j implies (#[trigger] s[i]).0 != (
    #[trigger] s[j]).0 by {
        if i < rest.len() {
            assert(s[i] == rest[i]);
        }
        if j < rest.len() {
            assert(s[j] == rest[j]);
        }
        if i < n && j < n {
            assert(after.probation[i].0 != after.probation[j].0);
        } else if n <= i < rest.len() && n <= j < rest.len() {
            assert(after.protected[i - n].0 != after.protected[j - n].0);
        }
    }
    s
}

/// Inserting a value brings nothing else into the cache.
pub proof fn lemma_inserted_holds(m: CacheModel, k: Seq<u8>, v: Seq<u8>)
    ensures
        forall|a: Seq<u8>, b: Seq<u8>| #[trigger]
            m.inserted(k, v).holds(a, b) ==> m.holds(a, b) || (a, b) == (k, v),
{
    let base = m.invalidated(k);
    lemma_invalidated_holds(m, k);
    let grown = CacheModel { probation: base.probation.push((k, v)), ..base };
    let order = grown.eviction_order();
    let n = surplus(order, m.cap) as int;
    lemma_surplus_is_least(order, m.cap);
    let after = m.inserted(k, v);
    let p = grown.probation.len() as int;
    assert forall|a: Seq<u8>, b: Seq<u8>| #[trigger] after.holds(a, b) implies m.holds(a, b) || (a, b)
        == (k, v) by {
        if after.protected.contains((a, b)) {
            let j = choose|j: int| 0 <= j < after.protected.len() && after.protected[j] == (a, b);
            let d = if n <= p {
                0
            } else {
                n - p
            };
            assert(base.protected[d + j] == (a, b));
            assert(base.holds(a, b));
        } else {
            let j = choose|j: int| 0 <= j < after.probation.len() && after.probation[j] == (a, b);
            let d = if n <= p {
                n
            } else {
                p
            };
            assert(grown.probation[d + j] == (a, b));
            if d + j < base.probation.len() {
                assert(base.probation[d + j] == (a, b));
                assert(base.holds(a, b));
            }
        }
    }
}

/// Figures on a [`RamCache`].
#[derive(Debug, Clone, Default)]
pub struct CacheStats {
    pub cap_bytes: u64,
    pub resident_bytes: u64,
    pub entries: usize,
    pub protected_entries: usize,
    pub probation_entries: usize,
    pub hits: u64,
    pub misses: u64,
    pub evictions: u64,
    pub promotions: u64,
}

/// A strict byte-bounded, frequency-aware RAM cache.
///
/// A value seen more than once is promoted from the *probation* segment into
/// the *protected* segment, so it survives eviction pressure that churns
/// through once-touched data. The resident size never exceeds the cap.
///
/// Probation (recency) is evicted before protected (frequency). The protected
/// segment is itself capped, so that a stream of new data can always be
/// admitted. A key is a byte string.
pub struct RamCache {
    probation: Segment,
    protected: Segment,
    bytes_prob: u64,
    bytes_prot: u64,
    cap: u64,
    protected_cap: u64,
    hits: u64,
    misses: u64,
    evictions: u64,
    promotions: u64,
}

impl View for RamCache {
    type V = CacheModel;

    closed spec fn view(&self) -> CacheModel {
        CacheModel {
            probation: segment_entries(self.probation),
            protected: segment_entries(self.protected),
            cap: self.cap as nat,
            protected_cap: self.protected_cap as nat,
            hits: self.hits,
            misses: self.misses,
            evictions: self.evictions,
            promotions: self.promotions,
        }
    }
}

impl RamCache {
    /// Keys are distinct and the byte counts are those of the segments.
    closed spec fn consistent(&self) -> bool {
        &&& self@.keys_distinct()
        &&& self.bytes_prob == total_bytes(self@.probation)
        &&& self.bytes_prot == total_bytes(self@.protected)
        &&& self@.protected_cap <= self@.cap
        &&& self@.protected_cap == protected_share(self@.cap)
    }

    /// The cache is consistent and within both of its limits.
    pub closed spec fn wf(&self) -> bool {
        &&& self.consistent()
        &&& self@.resident() <= self@.cap
        &&& total_bytes(self@.protected) <= self@.protected_cap
    }

    /// What [`RamCache::wf`] says of the state: the strict cap, the limit of
    /// the protected segment, and that no key is held twice.
    pub proof fn lemma_wf(&self)
        requires
            self.wf(),
        ensures
            self@.bounded(),
            self@.keys_distinct(),
            self@.resident() <= self@.cap <= u64::MAX,
            total_bytes(self@.protected) <= self@.protected_cap <= self@.cap,
    {
    }

    pub fn new(cap_bytes: u64) -> (c: RamCache)
        ensures
            c.wf(),
            c@ == CacheModel::empty(cap_bytes),
    {
        let fifth: u64 = cap_bytes / 10 * 8;
        let c = RamCache {
            probation: Segment::new(),
            protected: Segment::new(),
            bytes_prob: 0,
            bytes_prot: 0,
            cap: if cap_bytes >= 1 {
                cap_bytes
            } else {
                1
            },
            protected_cap: if fifth >= 1 {
                fifth
            } else {
                1
            },
            hits: 0,
            misses: 0,
            evictions: 0,
            promotions: 0,
        };
        assert(c@ =~= CacheModel::empty(cap_bytes));
        c
    }

    /// Look up a value. A hit in probation promotes the entry to protected; a
    /// hit in protected refreshes its recency.
    pub fn get(&mut self, k: &[u8]) -> (r: Option<Arc<Vec<u8>>>)
        requires
            old(self).wf(),
        ensures
            final(self).wf(),
            final(self)@ == old(self)@.looked_up(k@),
            match r {
                Some(v) => old(self)@.lookup(k@) == Some(v@),
                None => old(self)@.lookup(k@) is None,
            },
    {
        let ghost m0 = self@;
        proof {
            lemma_without(m0.protected, k@);
            lemma_without(m0.probation, k@);
        }
        if let Some(v) = self.protected.remove(k) {
            let ret = v.clone();
            proof {
                lemma_push_distinct(without_key(m0.protected, k@), (k@, v@));
                lemma_total_push(without_key(m0.protected, k@), (k@, v@));
                lemma_absent_without(without_key(m0.protected, k@), k@);
            }
            self.protected.insert(slice_to_vec(k), v);
            self.hits = self.hits.wrapping_add(1);
            proof {
                let i = slot_of(m0.protected, k@);
                assert(disjoint_keys(m0.probation, self@.protected)) by {
                    assert forall|a: int, b: int|
                        0 <= a < m0.probation.len() && 0 <= b < self@.protected.len() implies (
                    #[trigger] m0.probation[a]).0 != (#[trigger] self@.protected[b]).0 by {
                        let _ = m0.protected[i];
                    }
                }
                assert(self@ =~= m0.looked_up(k@));
            }
            return Some(ret);
        }
        assert(without_key(m0.protected, k@) == m0.protected);
        if let Some(v) = self.probation.remove(k) {
            let len = v.len() as u64;
            let ghost i = slot_of(m0.probation, k@);
            self.bytes_prob = self.bytes_prob - len;
            let ret = v.clone();
            proof {
                lemma_push_distinct(m0.protected, (k@, v@));
                lemma_total_push(m0.protected, (k@, v@));
                lemma_absent_without(m0.protected, k@);
            }
            self.protected.insert(slice_to_vec(k), v);
            self.bytes_prot = self.bytes_prot + len;
            self.hits = self.hits.wrapping_add(1);
            self.promotions = self.promotions.wrapping_add(1);
            proof {
                assert(disjoint_keys(self@.probation, self@.protected)) by {
                    assert forall|a: int, b: int|
                        0 <= a < self@.probation.len() && 0 <= b < self@.protected.len() implies (
                    #[trigger] self@.probation[a]).0 != (#[trigger] self@.protected[b]).0 by {
                        let _ = m0.probation[i];
                        if b < m0.protected.len() {
                            let _ = m0.protected[b];
                        }
                    }
                }
            }
            let ghost m1 = self@;
            self.enforce_protected_cap();
            let ghost m2 = self@;
            self.enforce_total_cap();
            proof {
                assert(surplus(m2.eviction_order(), m2.cap) == 0) by {
                    lemma_total_add(m2.probation, m2.protected);
                }
                assert(m2.evicted() =~= m2);
                assert(self@ == m1.demoted());
                assert(self@ =~= m0.looked_up(k@));
            }
            return Some(ret);
        }
        self.misses = self.misses.wrapping_add(1);
        assert(self@ =~= m0.looked_up(k@));
        None
    }

    /// Insert a value (typically after a miss). New data always lands in the
    /// probation segment; it earns protected status only by being read again.
    pub fn insert(&mut self, k: Vec<u8>, value: Arc<Vec<u8>>)
        requires
            old(self).wf(),
            old(self)@.invalidated(k@).resident() + value@.len() <= u64::MAX,
        ensures
            final(self).wf(),
            final(self)@ == old(self)@.inserted(k@, value@),
    {
        let ghost key = k@;
        self.invalidate(k.as_slice());
        let ghost m1 = self@;
        let len = value.len() as u64;
        proof {
            lemma_absent_without(m1.probation, key);
            lemma_push_distinct(m1.probation, (key, value@));
            lemma_total_push(m1.probation, (key, value@));
        }
        self.probation.insert(k, value);
        self.bytes_prob = self.bytes_prob + len;
        proof {
            assert(disjoint_keys(self@.probation, self@.protected)) by {
                assert forall|a: int, b: int|
                    0 <= a < self@.probation.len() && 0 <= b < self@.protected.len() implies (
                #[trigger] self@.probation[a]).0 != (#[trigger] self@.protected[b]).0 by {
                    if a < m1.probation.len() {
                        let _ = m1.probation[a];
                    }
                }
            }
            assert(self@ =~= (CacheModel { probation: m1.probation.push((key, value@)), ..m1 }));
        }
        self.enforce_total_cap();
    }

    /// Drop the value under `k`, if there is one.
    pub fn invalidate(&mut self, k: &[u8])
        requires
            old(self).wf(),
        ensures
            final(self).wf(),
            final(self)@ == old(self)@.invalidated(k@),
            !final(self)@.contains(k@),
    {
        let ghost m0 = self@;
        proof {
            lemma_without(m0.probation, k@);
            lemma_without(m0.protected, k@);
        }
        if let Some(v) = self.probation.remove(k) {
            self.bytes_prob = self.bytes_prob - v.len() as u64;
        }
        if let Some(v) = self.protected.remove(k) {
            self.bytes_prot = self.bytes_prot - v.len() as u64;
        }
        assert(self@ =~= m0.invalidated(k@));
    }

    pub fn contains(&self, k: &[u8]) -> (b: bool)
        ensures
            b == self@.contains(k@),
    {
        self.protected.contains_key(k) || self.probation.contains_key(k)
    }

    /// Drop every value; the counters stay.
    pub fn clear(&mut self)
        requires
            old(self).wf(),
        ensures
            final(self).wf(),
            final(self)@ == (CacheModel {
                probation: Seq::empty(),
                protected: Seq::empty(),
                ..old(self)@
            }),
    {
        self.probation.clear();
        self.protected.clear();
        self.bytes_prob = 0;
        self.bytes_prot = 0;
    }

    pub fn stats(&self) -> (s: CacheStats)
        requires
            self.wf(),
        ensures
            s.cap_bytes == self@.cap,
            s.resident_bytes == self@.resident(),
            self@.probation.len() + self@.protected.len() <= usize::MAX ==> s.entries
                == self@.probation.len() + self@.protected.len(),
            s.protected_entries == self@.protected.len(),
            s.probation_entries == self@.probation.len(),
            s.hits == self@.hits,
            s.misses == self@.misses,
            s.evictions == self@.evictions,
            s.promotions == self@.promotions,
    {
        CacheStats {
            cap_bytes: self.cap,
            resident_bytes: self.bytes_prob + self.bytes_prot,
            entries: self.probation.len().wrapping_add(self.protected.len()),
            protected_entries: self.protected.len(),
            probation_entries: self.probation.len(),
            hits: self.hits,
            misses: self.misses,
            evictions: self.evictions,
            promotions: self.promotions,
        }
    }

    /// Demote protected LRUs back to probation until the protected segment fits.
    fn enforce_protected_cap(&mut self)
        requires
            old(self).consistent(),
            old(self)@.resident() <= u64::MAX,
        ensures
            final(self).consistent(),
            final(self)@ == old(self)@.demoted(),
            final(self)@.resident() == old(self)@.resident(),
            total_bytes(final(self)@.protected) <= final(self)@.protected_cap,
    {
        let ghost m0 = self@;
        let ghost mut n: int = 0;
        proof {
            assert(m0.protected.skip(0) =~= m0.protected);
            assert(m0.probation + m0.protected.take(0) =~= m0.probation);
        }
        while self.bytes_prot > self.protected_cap
            invariant
                self.consistent(),
                m0.keys_distinct(),
                self@.resident() == m0.resident(),
                m0.resident() <= u64::MAX,
                0 <= n <= m0.protected.len(),
                self@ == (CacheModel {
                    probation: m0.probation + m0.protected.take(n),
                    protected: m0.protected.skip(n),
                    ..m0
                }),
                surplus(m0.protected, m0.protected_cap) == n + surplus(
                    m0.protected.skip(n),
                    m0.protected_cap,
                ),
            ensures
                self.bytes_prot <= self.protected_cap,
            decreases m0.protected.len() - n,
        {
            let ghost before = self@;
            match self.protected.pop_front() {
                Some((k, v)) => {
                    let len = v.len() as u64;
                    let ghost e = (k@, v@);
                    self.bytes_prot = self.bytes_prot - len;
                    proof {
                        assert(before.protected[0] == e);
                        lemma_absent_without(before.probation, k@);
                        lemma_push_distinct(before.probation, e);
                        lemma_total_push(before.probation, e);
                        assert(without_key(before.probation, k@) == before.probation);
                    }
                    self.probation.insert(k, v);
                    self.bytes_prob = self.bytes_prob + len;
                    proof {
                        n = n + 1;
                        assert(m0.protected.skip(n - 1).drop_first() =~= m0.protected.skip(n));
                        assert((m0.probation + m0.protected.take(n - 1)).push(e) =~= m0.probation
                            + m0.protected.take(n));
                        assert(self@ =~= (CacheModel {
                            probation: m0.probation + m0.protected.take(n),
                            protected: m0.protected.skip(n),
                            ..m0
                        }));
                        lemma_split_distinct(m0.probation, m0.protected, n);
                    }
                },
                None => {
                    assert(false);
                    break;
                },
            }
        }
        assert(self@ =~= m0.demoted());
    }

    /// Strictly enforce the global byte cap: evict probation first, then protected.
    fn enforce_total_cap(&mut self)
        requires
            old(self).consistent(),
            old(self)@.resident() <= u64::MAX,
            total_bytes(old(self)@.protected) <= old(self)@.protected_cap,
        ensures
            final(self).wf(),
            final(self)@ == old(self)@.evicted(),
    {
        let ghost m0 = self@;
        let ghost order = m0.eviction_order();
        let ghost mut n: int = 0;
        proof {
            lemma_total_add(m0.probation, m0.protected);
            assert(order.skip(0) =~= order);
            assert(self@.eviction_order() =~= order.skip(0));
            assert(m0.probation.skip(0) =~= m0.probation);
            assert(m0.protected.skip(0) =~= m0.protected);
            assert(counted(m0.evictions, 0) == m0.evictions);
        }
        while self.bytes_prob + self.bytes_prot > self.cap
            invariant
                self.consistent(),
                m0.keys_distinct(),
                order == m0.eviction_order(),
                self@.resident() <= u64::MAX,
                total_bytes(self@.protected) <= self@.protected_cap,
                0 <= n <= order.len(),
                self@ == m0.after_evicting(n),
                surplus(order, m0.cap) == n + surplus(order.skip(n), m0.cap),
            ensures
                self.bytes_prob + self.bytes_prot <= self.cap,
            decreases order.len() - n,
        {
            let ghost before = self@;
            let ghost p = m0.probation.len() as int;
            proof {
                lemma_total_add(before.probation, before.protected);
                assert(before.eviction_order() =~= order.skip(n));
                if n >= p {
                    assert(before.probation =~= Seq::empty());
                }
            }
            if let Some((_k, v)) = self.probation.pop_front() {
                self.bytes_prob = self.bytes_prob - v.len() as u64;
                self.evictions = self.evictions.wrapping_add(1);
                proof {
                    n = n + 1;
                    assert(m0.probation.skip(n - 1).drop_first() =~= m0.probation.skip(n));
                    assert(order.skip(n - 1).drop_first() =~= order.skip(n));
                    assert(self@ =~= m0.after_evicting(n));
                }
            } else if let Some((_k, v)) = self.protected.pop_front() {
                self.bytes_prot = self.bytes_prot - v.len() as u64;
                self.evictions = self.evictions.wrapping_add(1);
                proof {
                    n = n + 1;
                    assert(m0.protected.skip(n - 1 - p).drop_first() =~= m0.protected.skip(n - p));
                    assert(order.skip(n - 1).drop_first() =~= order.skip(n));
                    assert(self@ =~= m0.after_evicting(n));
                }
            } else {
                assert(false);
                break;
            }
        }
        proof {
            lemma_total_add(self@.probation, self@.protected);
            assert(self@.eviction_order() =~= order.skip(n));
            assert(self@ =~= m0.evicted());
        }
    }
}

/// [`surplus`] is the least number of leading entries whose removal brings the
/// rest within `cap`.
pub proof fn lemma_surplus_is_least(s: Seq<CacheEntry>, cap: nat)
    ensures
        surplus(s, cap) <= s.len(),
        total_bytes(s.skip(surplus(s, cap) as int)) <= cap,
        forall|j: int| 0 <= j < surplus(s, cap) ==> total_bytes(#[trigger] s.skip(j)) > cap,
    decreases s.len(),
{
    assert(s.skip(0) =~= s);
    if s.len() > 0 && total_bytes(s) > cap {
        let t = s.drop_first();
        lemma_surplus_is_least(t, cap);
        assert(t.skip(surplus(t, cap) as int) =~= s.skip(surplus(s, cap) as int));
        assert forall|j: int| 0 <= j < surplus(s, cap) implies total_bytes(#[trigger] s.skip(j))
            > cap by {
            if j > 0 {
                assert(s.skip(j) =~= t.skip(j - 1));
            }
        }
    }
}

/// Dropping all but the last entry and what follows it keeps at least that
/// entry's bytes.
proof fn lemma_total_of_suffix(s: Seq<CacheEntry>, j: int, i: int)
    requires
        0 <= j <= i < s.len(),
    ensures
        total_bytes(s.skip(j)) >= total_bytes(s.skip(i)) >= s[i].1.len(),
    decreases i - j,
{
    assert(s.skip(j).drop_first() =~= s.skip(j + 1));
    if j < i {
        lemma_total_of_suffix(s, j + 1, i);
    }
}

/// A value that is read again while on probation becomes protected, unless it
/// alone is larger than the protected segment.
pub proof fn law_second_read_promotes(m: CacheModel, k: Seq<u8>)
    requires
        m.keys_distinct(),
        has_key(m.probation, k),
        m.lookup(k).unwrap().len() <= m.protected_cap,
    ensures
        has_key(m.looked_up(k).protected, k),
        m.looked_up(k).lookup(k) == m.lookup(k),
{
    let i = slot_of(m.probation, k);
    let v = m.probation[i].1;
    if has_key(m.protected, k) {
        let j = slot_of(m.protected, k);
        assert(m.probation[i].0 != m.protected[j].0);
    }
    let grown = m.protected.push((k, v));
    let n = surplus(grown, m.protected_cap) as int;
    lemma_surplus_is_least(grown, m.protected_cap);
    let last = grown.len() - 1;
    if n > last {
        assert(total_bytes(grown.skip(last).drop_first()) == 0);
        assert(total_bytes(grown.skip(last)) == v.len());
    }
    let after = m.looked_up(k).protected;
    assert(after == grown.skip(n));
    assert(after[last - n] == (k, v));
    let at = slot_of(after, k);
    assert(after[at] == grown[n + at]);
    if n + at < last {
        assert(m.protected[n + at].0 == k);
    }
}

/// A read of a protected value keeps it protected.
pub proof fn law_protected_read_keeps_protection(m: CacheModel, k: Seq<u8>)
    requires
        m.keys_distinct(),
        has_key(m.protected, k),
    ensures
        has_key(m.looked_up(k).protected, k),
        m.looked_up(k).lookup(k) == m.lookup(k),
{
    let v = m.protected[slot_of(m.protected, k)].1;
    let rest = without_key(m.protected, k);
    lemma_without(m.protected, k);
    let after = rest.push((k, v));
    assert(after[rest.len() as int].0 == k);
    let at = slot_of(after, k);
    if at < rest.len() {
        assert(rest[at].0 == k);
    }
}

/// New data never pushes a protected value out, as long as it fits beside the
/// protected segment: one-shot reads churn through probation only.
pub proof fn law_protected_survives_insert(m: CacheModel, k: Seq<u8>, v: Seq<u8>)
    requires
        m.keys_distinct(),
        !has_key(m.protected, k),
        v.len() + total_bytes(m.protected) <= m.cap,
    ensures
        m.inserted(k, v).protected == m.protected,
        m.inserted(k, v).lookup(k) == Some(v),
        has_key(m.inserted(k, v).probation, k),
{
    let base = m.invalidated(k);
    lemma_without(m.probation, k);
    let grown = CacheModel { probation: base.probation.push((k, v)), ..base };
    let order = grown.eviction_order();
    let n = surplus(order, m.cap) as int;
    let last = base.probation.len() as int;
    lemma_surplus_is_least(order, m.cap);
    if n > last {
        assert(order.skip(last).drop_first() =~= m.protected);
        assert(total_bytes(order.skip(last)) == v.len() + total_bytes(m.protected));
        assert(false);
    }
    assert(m.protected.skip(0) =~= m.protected);
    let after = m.inserted(k, v);
    assert(after.probation == grown.probation.skip(n));
    assert(after.probation[last - n] == (k, v));
    let at = slot_of(after.probation, k);
    assert(after.probation[at] == grown.probation[n + at]);
    if n + at < last {
        assert(base.probation[n + at].0 == k);
    }
}

/// New data of up to a fifth of the budget is always admitted, whatever the
/// state of the cache: the next look-up finds it. Only probation entries make
/// way for it, the oldest first, and no counter but that of the evictions
/// changes.
pub proof fn law_new_data_is_admitted(m: CacheModel, k: Seq<u8>, v: Seq<u8>)
    requires
        m.bounded(),
        m.cap >= 10,
        v.len() <= m.cap / 5,
    ensures
        m.inserted(k, v).contains(k),
        m.inserted(k, v).lookup(k) == Some(v),
        m.inserted(k, v).resident() <= m.cap,
        m.inserted(k, v).protected == without_key(m.protected, k),
        !m.contains(k) ==> m.inserted(k, v).protected == m.protected,
        exists|n: int|
            0 <= n <= without_key(m.probation, k).len() && m.inserted(k, v).probation
                == #[trigger] without_key(m.probation, k).skip(n).push((k, v)),
        m.inserted(k, v).hits == m.hits,
        m.inserted(k, v).misses == m.misses,
        m.inserted(k, v).promotions == m.promotions,
{
    let base = m.invalidated(k);
    lemma_without(m.probation, k);
    lemma_without(m.protected, k);
    assert(base.keys_distinct()) by {
        assert forall|i: int, j: int|
            0 <= i < base.probation.len() && 0 <= j < base.protected.len() implies (
        #[trigger] base.probation[i]).0 != (#[trigger] base.protected[j]).0 by {
            assert(has_key(m.probation, base.probation[i].0));
            assert(has_key(m.protected, base.protected[j].0));
            let x = slot_of(m.probation, base.probation[i].0);
            let y = slot_of(m.protected, base.protected[j].0);
            assert(m.probation[x].0 != m.protected[y].0);
        }
    }
    lemma_absent_without(base.probation, k);
    lemma_absent_without(base.protected, k);
    assert(base.invalidated(k) == base);
    assert(m.inserted(k, v) == base.inserted(k, v));
    assert(m.cap / 10 * 8 + m.cap / 5 <= m.cap);
    law_protected_survives_insert(base, k, v);
    let grown = CacheModel { probation: base.probation.push((k, v)), ..base };
    let order = grown.eviction_order();
    let n = surplus(order, m.cap) as int;
    lemma_surplus_is_least(order, m.cap);
    let after = m.inserted(k, v);
    let last = base.probation.len() as int;
    if n > last {
        assert(order.skip(last).drop_first() =~= base.protected);
        assert(order.skip(last)[0] == (k, v));
        assert(false);
    }
    assert(after.probation =~= base.probation.skip(n).push((k, v)));
    assert(after.eviction_order() =~= order.skip(n));
    lemma_total_add(after.probation, after.protected);
}

/// A value larger than the whole budget does not stick.
pub proof fn law_oversized_value_does_not_stick(m: CacheModel, k: Seq<u8>, v: Seq<u8>)
    requires
        m.keys_distinct(),
        v.len() > m.cap,
    ensures
        !m.inserted(k, v).contains(k),
{
    let base = m.invalidated(k);
    lemma_without(m.probation, k);
    lemma_without(m.protected, k);
    let grown = CacheModel { probation: base.probation.push((k, v)), ..base };
    let order = grown.eviction_order();
    let n = surplus(order, m.cap) as int;
    let last = base.probation.len() as int;
    lemma_surplus_is_least(order, m.cap);
    if n <= last {
        lemma_total_of_suffix(order, n, last);
        assert(order[last] == (k, v));
        assert(false);
    }
    let after = m.inserted(k, v);
    assert(after.probation =~= Seq::empty());
    if has_key(after.protected, k) {
        let at = slot_of(after.protected, k);
        assert(base.protected[at + n - grown.probation.len()].0 == k);
    }
}

/// Every look-up counts as exactly one hit or one miss, and hands out a value
/// exactly when it counts as a hit.
pub proof fn law_every_lookup_is_counted(m: CacheModel, k: Seq<u8>)
    ensures
        m.lookup(k) is Some ==> m.looked_up(k).hits == counted(m.hits, 1) && m.looked_up(k).misses
            == m.misses,
        m.lookup(k) is None ==> m.looked_up(k).misses == counted(m.misses, 1) && m.looked_up(k).hits
            == m.hits,
{
}

} // verus!
