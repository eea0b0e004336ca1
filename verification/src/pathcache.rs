//! A short-lived RAM cache of query results.

use vstd::prelude::*;
use vstd::utf8::encode_utf8;

use crate::cache::counted;
use crate::order::OrderedKey;
use crate::protocol::{copy_paths, scored, ScoredPath};
use crate::sorted::{ascending, entries_of, lemma_map_of_entry, lemma_map_of_key, SortedMap};

verus! {

/// Default time-to-live for a cached query result in nanoseconds: 5 minutes,
/// sliding.
pub const DEFAULT_TTL: u64 = 300_000_000_000;

/// Default strict RAM budget for this cache: 500 MiB, separate from the
/// filesystem's 1 GiB block cache.
pub const DEFAULT_CAP_BYTES: usize = 500 * 1024 * 1024;

const NANOS_PER_SEC: u64 = 1_000_000_000;

/// A cached result.
pub struct PathEntry {
    pub paths: Vec<ScoredPath>,
    /// When it expires, in nanoseconds.
    pub expires_at: u64,
    pub bytes: usize,
}

/// What the results take up beside their query.
pub open spec fn paths_bytes(paths: Seq<(Seq<char>, u64)>) -> nat
    decreases paths.len(),
{
    if paths.len() == 0 {
        0
    } else {
        paths_bytes(paths.drop_last()) + encode_utf8(paths.last().0).len() + 24
    }
}

/// What an entry takes up: the text of the query and of the paths, and a fixed
/// amount for each of them.
pub open spec fn entry_size(query: Seq<char>, paths: Seq<(Seq<char>, u64)>) -> nat {
    encode_utf8(query).len() + 64 + paths_bytes(paths)
}

proof fn lemma_paths_bytes_part(paths: Seq<(Seq<char>, u64)>, i: int)
    requires
        0 <= i <= paths.len(),
    ensures
        paths_bytes(paths.take(i)) <= paths_bytes(paths),
    decreases paths.len() - i,
{
    if i < paths.len() {
        lemma_paths_bytes_part(paths, i + 1);
        assert(paths.take(i + 1).drop_last() =~= paths.take(i));
    } else {
        assert(paths.take(i) =~= paths);
    }
}

/// The size of an entry; `None` where it is more than can be counted.
fn entry_bytes(query: &str, paths: &Vec<ScoredPath>) -> (r: Option<usize>)
    ensures
        match r {
            Some(n) => n == entry_size(query@, scored(paths@)),
            None => entry_size(query@, scored(paths@)) > usize::MAX,
        },
{
    let ghost all = scored(paths@);
    let mut b: usize = match query.as_bytes().len().checked_add(64) {
        Some(b) => b,
        None => {
            return None;
        },
    };
    let mut i: usize = 0;
    assert(all.take(0) =~= Seq::empty());
    while i < paths.len()
        invariant
            all == scored(paths@),
            i <= paths@.len(),
            b == encode_utf8(query@).len() + 64 + paths_bytes(all.take(i as int)),
        decreases paths@.len() - i,
    {
        let n: usize = paths[i].path.as_str().as_bytes().len();
        proof {
            assert(all.take(i + 1).drop_last() =~= all.take(i as int));
            assert(all.take(i + 1).last() == all[i as int]);
            lemma_paths_bytes_part(all, i + 1);
        }
        match n.checked_add(24) {
            None => {
                return None;
            },
            Some(n) => match b.checked_add(n) {
                None => {
                    return None;
                },
                Some(sum) => {
                    b = sum;
                },
            },
        }
        i = i + 1;
    }
    assert(all.take(i as int) =~= all);
    Some(b)
}

/// The sizes of the entries together.
pub open spec fn sizes(s: Seq<(Seq<char>, PathEntry)>) -> nat
    decreases s.len(),
{
    if s.len() == 0 {
        0
    } else {
        s[0].1.bytes as nat + sizes(s.drop_first())
    }
}

/// The sizes of the entries of a map together.
pub open spec fn resident(m: Map<Seq<char>, PathEntry>) -> nat {
    sizes(entries_of::<String, PathEntry>(m))
}

pub proof fn lemma_sizes_insert(s: Seq<(Seq<char>, PathEntry)>, p: int, e: (Seq<char>, PathEntry))
    requires
        0 <= p <= s.len(),
    ensures
        sizes(s.insert(p, e)) == sizes(s) + e.1.bytes,
    decreases s.len(),
{
    let t = s.insert(p, e);
    if p == 0 {
        assert(t.drop_first() =~= s);
    } else {
        lemma_sizes_insert(s.drop_first(), p - 1, e);
        assert(t.drop_first() =~= s.drop_first().insert(p - 1, e));
    }
}

proof fn lemma_sizes_remove(s: Seq<(Seq<char>, PathEntry)>, p: int)
    requires
        0 <= p < s.len(),
    ensures
        sizes(s.remove(p)) == sizes(s) - s[p].1.bytes,
{
    lemma_sizes_insert(s.remove(p), p, s[p]);
    assert(s.remove(p).insert(p, s[p]) =~= s);
}

/// `k` is the entry that expires first; of several, the one whose query comes
/// first.
pub open spec fn is_soonest(m: Map<Seq<char>, PathEntry>, k: Seq<char>) -> bool {
    &&& m.contains_key(k)
    &&& forall|o: Seq<char>| #[trigger]
        m.contains_key(o) ==> m[k].expires_at < m[o].expires_at || (m[k].expires_at
            == m[o].expires_at && (o == k || String::before(k, o)))
}

/// The first `n` entries to expire gone.
pub open spec fn after_evicting(m: Map<Seq<char>, PathEntry>, n: nat) -> Map<Seq<char>, PathEntry>
    decreases n,
{
    if n == 0 {
        m
    } else {
        let before = after_evicting(m, (n - 1) as nat);
        before.remove(choose|k: Seq<char>| is_soonest(before, k))
    }
}

/// `n` is how many entries have to go, the soonest to expire first, before
/// `need` more bytes are within the cap.
pub open spec fn evictions_for(m: Map<Seq<char>, PathEntry>, need: nat, cap: nat, n: nat) -> bool {
    &&& resident(after_evicting(m, n)) + need <= cap
    &&& forall|j: nat| j < n ==> resident(#[trigger] after_evicting(m, j)) + need > cap
}

/// The entries that are alive at `now`.
pub open spec fn alive(m: Map<Seq<char>, PathEntry>, now: u64) -> Map<Seq<char>, PathEntry> {
    Map::new(|k: Seq<char>| m.contains_key(k) && m[k].expires_at > now, |k: Seq<char>| m[k])
}

/// The state of a [`PathTtlCache`].
#[verifier::ext_equal]
pub struct PathCacheModel {
    pub map: Map<Seq<char>, PathEntry>,
    pub ttl: u64,
    pub cap: nat,
    pub hits: u64,
    pub misses: u64,
    pub expired: u64,
    pub evictions: u64,
}

impl PathCacheModel {
    /// After a look-up: an entry that is alive lives for another `ttl` from now
    /// on, one that has expired is gone.
    pub open spec fn looked_up(self, query: Seq<char>, now: u64) -> PathCacheModel {
        if self.map.contains_key(query) && self.map[query].expires_at > now {
            let e = self.map[query];
            PathCacheModel {
                map: self.map.insert(
                    query,
                    PathEntry { expires_at: (now + self.ttl) as u64, ..e },
                ),
                hits: counted(self.hits, 1),
                ..self
            }
        } else if self.map.contains_key(query) {
            PathCacheModel {
                map: self.map.remove(query),
                expired: counted(self.expired, 1),
                misses: counted(self.misses, 1),
                ..self
            }
        } else {
            PathCacheModel { misses: counted(self.misses, 1), ..self }
        }
    }

    /// A result cached, once `n` entries had to go for it.
    pub open spec fn inserted(self, query: Seq<char>, paths: Vec<ScoredPath>, now: u64, n: nat) -> PathCacheModel {
        PathCacheModel {
            map: after_evicting(self.map.remove(query), n).insert(
                query,
                PathEntry {
                    paths,
                    expires_at: (now + self.ttl) as u64,
                    bytes: entry_size(query, scored(paths@)) as usize,
                },
            ),
            evictions: counted(self.evictions, n),
            ..self
        }
    }

    /// The result that a look-up gives.
    pub open spec fn result(self, query: Seq<char>, now: u64) -> Option<Seq<(Seq<char>, u64)>> {
        if self.map.contains_key(query) && self.map[query].expires_at > now {
            Some(scored(self.map[query].paths@))
        } else {
            None
        }
    }
}

/// Figures on a [`PathTtlCache`].
#[derive(Debug, Clone)]
pub struct PathCacheStats {
    pub ttl_secs: u64,
    pub cap_bytes: usize,
    pub resident_bytes: usize,
    pub entries: usize,
    pub hits: u64,
    pub misses: u64,
    pub expired: u64,
    pub evictions: u64,
}

/// A short-lived RAM cache for query results: the paths that were guessed or
/// otherwise found. Entries live for `ttl`; the timer is *refreshed* on every
/// hit (sliding expiration), so frequently-repeated lookups stay resident while
/// one-off lookups age out. Total size is capped strictly at `cap_bytes`. Times
/// are in nanoseconds.
pub struct PathTtlCache {
    map: SortedMap<String, PathEntry>,
    total_bytes: usize,
    ttl: u64,
    cap_bytes: usize,
    hits: u64,
    misses: u64,
    expired: u64,
    evictions: u64,
}

impl View for PathTtlCache {
    type V = PathCacheModel;

    closed spec fn view(&self) -> PathCacheModel {
        PathCacheModel {
            map: self.map@,
            ttl: self.ttl,
            cap: self.cap_bytes as nat,
            hits: self.hits,
            misses: self.misses,
            expired: self.expired,
            evictions: self.evictions,
        }
    }
}

impl PathTtlCache {
    pub closed spec fn wf(&self) -> bool {
        &&& ascending::<String, PathEntry>(self.map.entries())
        &&& self.total_bytes == sizes(self.map.entries())
        &&& self.total_bytes <= self.cap_bytes
    }

    /// The entries as a map lists them.
    proof fn lemma_entries(&self)
        requires
            ascending::<String, PathEntry>(self.map.entries()),
        ensures
            self.map.entries() == entries_of::<String, PathEntry>(self@.map),
    {
        crate::sorted::lemma_entries_unique::<String, PathEntry>(
            self.map.entries(),
            entries_of::<String, PathEntry>(self@.map),
        );
    }

    /// What [`PathTtlCache::wf`] says of the state: the strict cap.
    pub proof fn lemma_wf(&self)
        requires
            self.wf(),
        ensures
            resident(self@.map) <= self@.cap,
    {
        self.lemma_entries();
    }

    pub fn new(ttl: u64, cap_bytes: usize) -> (c: PathTtlCache)
        ensures
            c.wf(),
            c@ == (PathCacheModel {
                map: Map::empty(),
                ttl,
                cap: cap_bytes as nat,
                hits: 0,
                misses: 0,
                expired: 0,
                evictions: 0,
            }),
    {
        PathTtlCache {
            map: SortedMap::new(),
            total_bytes: 0,
            ttl,
            cap_bytes,
            hits: 0,
            misses: 0,
            expired: 0,
            evictions: 0,
        }
    }

    /// Look up a query. On a hit the entry's expiry is pushed out by `ttl`
    /// (sliding), so being queried again within the window keeps it alive.
    pub fn get(&mut self, query: &str, now: u64) -> (r: Option<Vec<ScoredPath>>)
        requires
            old(self).wf(),
            now + old(self)@.ttl <= u64::MAX,
        ensures
            final(self).wf(),
            final(self)@ == old(self)@.looked_up(query@, now),
            match r {
                Some(v) => old(self)@.result(query@, now) == Some(scored(v@)),
                None => old(self)@.result(query@, now) is None,
            },
    {
        let key = query.to_owned();
        let ghost before = self.map.entries();
        match self.map.remove(&key) {
            Some(e) => {
                proof {
                    let p = choose|p: int|
                        0 <= p < before.len() && before[p] == (query@, e) && self.map.entries()
                            == #[trigger] before.remove(p);
                    lemma_sizes_remove(before, p);
                }
                if e.expires_at > now {
                    let paths = copy_paths(&e.paths);
                    let ghost rest = self.map.entries();
                    let refreshed = PathEntry {
                        paths: e.paths,
                        expires_at: now + self.ttl,
                        bytes: e.bytes,
                    };
                    self.map.insert(key, refreshed);
                    self.hits = self.hits.wrapping_add(1);
                    proof {
                        let p = choose|p: int|
                            0 <= p <= rest.len() && self.map.entries() == #[trigger] rest.insert(
                                p,
                                (query@, refreshed),
                            );
                        lemma_sizes_insert(rest, p, (query@, refreshed));
                        assert(self@ =~= old(self)@.looked_up(query@, now));
                    }
                    Some(paths)
                } else {
                    self.total_bytes = self.total_bytes - e.bytes;
                    self.expired = self.expired.wrapping_add(1);
                    self.misses = self.misses.wrapping_add(1);
                    assert(self@ =~= old(self)@.looked_up(query@, now));
                    None
                }
            },
            None => {
                self.misses = self.misses.wrapping_add(1);
                assert(self@.map =~= old(self)@.map);
                assert(self@ =~= old(self)@.looked_up(query@, now));
                None
            },
        }
    }

    /// Cache a non-empty result set for `query`, evicting the soonest-to-expire
    /// entries if the budget would be exceeded. A single entry larger than the
    /// whole budget is not cached.
    pub fn insert(&mut self, query: String, paths: Vec<ScoredPath>, now: u64)
        requires
            old(self).wf(),
            now + old(self)@.ttl <= u64::MAX,
        ensures
            final(self).wf(),
            paths@.len() == 0 || entry_size(query@, scored(paths@)) > old(self)@.cap ==> (
            final(self)@ == old(self)@),
            paths@.len() > 0 && entry_size(query@, scored(paths@)) <= old(self)@.cap ==> exists|
                n: nat,
            | #[trigger]
                evictions_for(
                    old(self)@.map.remove(query@),
                    entry_size(query@, scored(paths@)),
                    old(self)@.cap,
                    n,
                ) && final(self)@ == old(self)@.inserted(query@, paths, now, n),
    {
        if paths.len() == 0 {
            return;
        }
        let bytes: usize = match entry_bytes(query.as_str(), &paths) {
            Some(b) => b,
            None => {
                return;
            },
        };
        if bytes > self.cap_bytes {
            return;
        }
        let ghost before = self.map.entries();
        if let Some(old_entry) = self.map.remove(&query) {
            proof {
                let p = choose|p: int|
                    0 <= p < before.len() && before[p] == (query@, old_entry) && self.map.entries()
                        == #[trigger] before.remove(p);
                lemma_sizes_remove(before, p);
            }
            self.total_bytes = self.total_bytes - old_entry.bytes;
        }
        let ghost base = old(self)@.map.remove(query@);
        let ghost mut n: nat = 0;
        let ghost cap = self.cap_bytes as nat;
        proof {
            assert(self@.map =~= base);
            assert(self@ =~= (PathCacheModel { map: base, ..old(self)@ }));
            assert(counted(old(self)@.evictions, 0) == old(self)@.evictions);
        }
        while self.total_bytes > self.cap_bytes - bytes
            invariant
                self.wf(),
                bytes <= self.cap_bytes,
                cap == self.cap_bytes,
                cap == old(self)@.cap,
                self@ == (PathCacheModel {
                    map: after_evicting(base, n),
                    evictions: counted(old(self)@.evictions, n),
                    ..old(self)@
                }),
                !base.contains_key(query@),
                !self@.map.contains_key(query@),
                forall|j: nat|
                    j < n ==> resident(#[trigger] after_evicting(base, j)) + bytes > cap,
            decreases self.total_bytes, self.map.entries().len(),
        {
            proof {
                self.lemma_entries();
                if self.map.entries().len() == 0 {
                    assert(sizes(self.map.entries()) == 0);
                }
            }
            let k = self.soonest();
            let ghost entries = self.map.entries();
            let ghost m = self@.map;
            match self.map.remove(&k) {
                Some(e) => {
                    proof {
                        let p = choose|p: int|
                            0 <= p < entries.len() && entries[p] == (k@, e) && self.map.entries()
                                == #[trigger] entries.remove(p);
                        lemma_sizes_remove(entries, p);
                    }
                    self.total_bytes = self.total_bytes - e.bytes;
                    self.evictions = self.evictions.wrapping_add(1);
                    proof {
                        let c = choose|c: Seq<char>| is_soonest(m, c);
                        lemma_soonest_unique(m, c, k@);
                        n = n + 1;
                        assert(self@ =~= (PathCacheModel {
                            map: after_evicting(base, n),
                            evictions: counted(old(self)@.evictions, n),
                            ..old(self)@
                        }));
                    }
                },
                None => {
                    assert(false);
                },
            }
        }
        let ghost rest = self.map.entries();
        let ghost e = PathEntry { paths, expires_at: (now + self.ttl) as u64, bytes };
        proof {
            self.lemma_entries();
            assert(evictions_for(base, bytes as nat, cap, n));
        }
        self.total_bytes = self.total_bytes + bytes;
        let ghost q = query@;
        self.map.insert(query, PathEntry { paths, expires_at: now + self.ttl, bytes });
        proof {
            let p = choose|p: int|
                0 <= p <= rest.len() && self.map.entries() == #[trigger] rest.insert(p, (q, e));
            lemma_sizes_insert(rest, p, (q, e));
            assert(self@ =~= old(self)@.inserted(q, paths, now, n));
        }
    }

    /// The query of the entry that expires first.
    fn soonest(&self) -> (k: String)
        requires
            self.wf(),
            self.map.entries().len() > 0,
        ensures
            is_soonest(self@.map, k@),
    {
        let n: usize = self.map.len();
        let ghost all = self.map.entries();
        let mut best: usize = 0;
        let mut i: usize = 1;
        while i < n
            invariant
                all == self.map.entries(),
                n == all.len(),
                best < i <= n,
                forall|j: int|
                    0 <= j < best ==> all[best as int].1.expires_at < (
                    #[trigger] all[j]).1.expires_at,
                forall|j: int|
                    best <= j < i ==> all[best as int].1.expires_at <= (
                    #[trigger] all[j]).1.expires_at,
            decreases n - i,
        {
            let a = self.map.entry(i).1.expires_at;
            let b = self.map.entry(best).1.expires_at;
            if a < b {
                best = i;
            }
            i = i + 1;
        }
        let k = self.map.entry(best).0.clone();
        proof {
            let m = self@.map;
            lemma_map_of_entry::<String, PathEntry>(all, best as int);
            assert forall|o: Seq<char>| #[trigger] m.contains_key(o) implies m[k@].expires_at
                < m[o].expires_at || (m[k@].expires_at == m[o].expires_at && (o == k@
                || String::before(k@, o))) by {
                let j = lemma_map_of_key(all, o);
                if j > best {
                    assert(String::before(all[best as int].0, all[j].0));
                }
            }
        }
        k
    }

    /// Drop every entry whose TTL has elapsed. Called periodically so memory is
    /// reclaimed even for queries that are never repeated.
    pub fn sweep(&mut self, now: u64)
        requires
            old(self).wf(),
        ensures
            final(self).wf(),
            final(self)@ == (PathCacheModel {
                map: alive(old(self)@.map, now),
                expired: counted(
                    old(self)@.expired,
                    (entries_of::<String, PathEntry>(old(self)@.map).len() - entries_of::<
                        String,
                        PathEntry,
                    >(alive(old(self)@.map, now)).len()) as nat,
                ),
                ..old(self)@
            }),
    {
        let ghost m = self@.map;
        let ghost total = self.map.entries().len();
        proof {
            self.lemma_entries();
            assert(counted(old(self)@.expired, 0) == old(self)@.expired);
        }
        let mut i: usize = 0;
        while i < self.map.len()
            invariant
                self.wf(),
                m == old(self)@.map,
                i <= self.map.entries().len() <= total,
                self@ == (PathCacheModel {
                    map: self@.map,
                    expired: counted(
                        old(self)@.expired,
                        (total - self.map.entries().len()) as nat,
                    ),
                    ..old(self)@
                }),
                forall|k: Seq<char>| #[trigger]
                    self@.map.contains_key(k) ==> m.contains_key(k) && self@.map[k] == m[k],
                forall|k: Seq<char>|
                    m.contains_key(k) && m[k].expires_at > now ==> #[trigger] self@.map.contains_key(
                        k,
                    ),
                forall|j: int|
                    0 <= j < i ==> (#[trigger] self.map.entries()[j]).1.expires_at > now,
            decreases self.map.entries().len() - i,
        {
            let ghost entries = self.map.entries();
            let e = self.map.entry(i);
            proof {
                lemma_map_of_entry::<String, PathEntry>(entries, i as int);
            }
            if e.1.expires_at > now {
                i = i + 1;
            } else {
                let k = e.0.clone();
                if let Some(gone) = self.map.remove(&k) {
                    proof {
                        let p = choose|p: int|
                            0 <= p < entries.len() && entries[p] == (k@, gone)
                                && self.map.entries() == #[trigger] entries.remove(p);
                        lemma_sizes_remove(entries, p);
                    }
                    self.total_bytes = self.total_bytes - gone.bytes;
                    self.expired = self.expired.wrapping_add(1);
                    proof {
                        let p = choose|p: int|
                            0 <= p < entries.len() && entries[p] == (k@, gone)
                                && self.map.entries() == #[trigger] entries.remove(p);
                        if p != i {
                            String::irreflexive(k@);
                            if p < i {
                                assert(String::before(entries[p].0, entries[i as int].0));
                            } else {
                                assert(String::before(entries[i as int].0, entries[p].0));
                            }
                        }
                        assert(self@ =~= (PathCacheModel {
                            map: self@.map,
                            expired: counted(
                                old(self)@.expired,
                                (total - self.map.entries().len()) as nat,
                            ),
                            ..old(self)@
                        }));
                    }
                }
            }
        }
        proof {
            self.lemma_entries();
            let all = self.map.entries();
            assert forall|k: Seq<char>| #[trigger] self@.map.contains_key(k) implies alive(
                m,
                now,
            ).contains_key(k) by {
                let j = lemma_map_of_key(all, k);
            }
            assert(self@.map =~= alive(m, now));
        }
    }

    pub fn stats(&self) -> (s: PathCacheStats)
        requires
            self.wf(),
        ensures
            s.ttl_secs == self@.ttl / 1_000_000_000,
            s.cap_bytes == self@.cap,
            s.resident_bytes == resident(self@.map),
            s.entries == entries_of::<String, PathEntry>(self@.map).len(),
            s.hits == self@.hits,
            s.misses == self@.misses,
            s.expired == self@.expired,
            s.evictions == self@.evictions,
    {
        proof {
            self.lemma_entries();
        }
        PathCacheStats {
            ttl_secs: self.ttl / NANOS_PER_SEC,
            cap_bytes: self.cap_bytes,
            resident_bytes: self.total_bytes,
            entries: self.map.len(),
            hits: self.hits,
            misses: self.misses,
            expired: self.expired,
            evictions: self.evictions,
        }
    }
}

/// Where there are entries, one expires first.
pub proof fn lemma_soonest_exists(m: Map<Seq<char>, PathEntry>)
    requires
        m.dom().finite(),
        m.dom().len() > 0,
    ensures
        exists|k: Seq<char>| is_soonest(m, k),
    decreases m.dom().len(),
{
    let e = m.dom().choose();
    assert(m.contains_key(e));
    let rest = m.remove(e);
    assert(rest.dom() =~= m.dom().remove(e));
    if rest.dom().len() == 0 {
        assert forall|o: Seq<char>| #[trigger] m.contains_key(o) implies o == e by {
            if o != e {
                assert(rest.dom().contains(o));
            }
        }
        assert(is_soonest(m, e));
    } else {
        lemma_soonest_exists(rest);
        let k = choose|k: Seq<char>| is_soonest(rest, k);
        String::total(e, k);
        let first = if m[e].expires_at < m[k].expires_at || (m[e].expires_at == m[k].expires_at
            && String::before(e, k)) {
            e
        } else {
            k
        };
        assert forall|o: Seq<char>| #[trigger] m.contains_key(o) implies m[first].expires_at
            < m[o].expires_at || (m[first].expires_at == m[o].expires_at && (o == first
            || String::before(first, o))) by {
            if o != e {
                assert(rest.contains_key(o));
                if first == e && o != k && String::before(e, k) && String::before(k, o) {
                    String::transitive(e, k, o);
                }
            }
        }
        assert(is_soonest(m, first));
    }
}

proof fn lemma_soonest_unique(m: Map<Seq<char>, PathEntry>, a: Seq<char>, b: Seq<char>)
    requires
        is_soonest(m, a),
        is_soonest(m, b),
    ensures
        a == b,
{
    if a != b {
        assert(m.contains_key(a) && m.contains_key(b));
        String::transitive(a, b, a);
        String::irreflexive(a);
    }
}

/// A query that is repeated within the window never expires: a hit keeps the
/// result for another `ttl`, whatever the time of the first one was.
pub proof fn law_hit_refreshes_the_timer(m: PathCacheModel, query: Seq<char>, now: u64, later: u64)
    requires
        m.result(query, now) is Some,
        now + m.ttl <= u64::MAX,
        now <= later < now + m.ttl,
    ensures
        m.looked_up(query, now).result(query, later) == m.result(query, now),
{
}

/// A result that was not used for `ttl` is not served any more, and a look-up
/// at that time drops it.
pub proof fn law_unused_result_expires(m: PathCacheModel, query: Seq<char>, now: u64)
    requires
        m.map.contains_key(query),
        m.map[query].expires_at <= now,
    ensures
        m.result(query, now) is None,
        !m.looked_up(query, now).map.contains_key(query),
        m.looked_up(query, now).misses == counted(m.misses, 1),
        m.looked_up(query, now).expired == counted(m.expired, 1),
{
}

} // verus!
