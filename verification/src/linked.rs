//! Recency-ordered collections.
//!
//! [`Segment`] holds a `hashlink::LinkedHashMap`. What it does is stated over
//! [`segment_entries`], the entries from the front of its list (the least
//! recently inserted) to the back. [`InodeCache`] holds a `hashlink::LruCache`;
//! [`cached_inodes`] and [`inode_cache_capacity`] stand for its entries and its
//! limit.

use std::sync::Arc;

use hashlink::{LinkedHashMap, LruCache};
use vstd::prelude::*;

use crate::inode::Inode;
use crate::tree::InodeModel;

verus! {

/// A key and the bytes cached under it.
pub type CacheEntry = (Seq<u8>, Seq<u8>);

/// Some entry of `s` has the key `k`.
pub open spec fn has_key<K, V>(s: Seq<(K, V)>, k: K) -> bool {
    exists|i: int| 0 <= i < s.len() && (#[trigger] s[i]).0 == k
}

/// Where the entry with the key `k` stands in `s`.
pub open spec fn slot_of<K, V>(s: Seq<(K, V)>, k: K) -> int {
    choose|i: int| 0 <= i < s.len() && (#[trigger] s[i]).0 == k
}

/// `s` without the entry that has the key `k`.
pub open spec fn without_key<K, V>(s: Seq<(K, V)>, k: K) -> Seq<(K, V)> {
    if has_key(s, k) {
        s.remove(slot_of(s, k))
    } else {
        s
    }
}

/// No key occurs twice in `s`.
pub open spec fn distinct_keys<K, V>(s: Seq<(K, V)>) -> bool {
    forall|i: int, j: int|
        0 <= i < s.len() && 0 <= j < s.len() && i != j ==> (#[trigger] s[i]).0 != (#[trigger] s[j]).0
}

/// A `hashlink::LinkedHashMap` from byte strings to shared byte strings.
#[verifier::external_body]
pub struct Segment {
    map: LinkedHashMap<Vec<u8>, Arc<Vec<u8>>>,
}

/// The entries of the segment, in list order from the front to the back.
pub uninterp spec fn segment_entries(m: Segment) -> Seq<CacheEntry>;

impl Segment {
    /// `LinkedHashMap::new`: the map holds no entries.
    #[verifier::external_body]
    pub(crate) fn new() -> (m: Segment)
        ensures
            segment_entries(m) == Seq::<CacheEntry>::empty(),
    {
        Segment { map: LinkedHashMap::new() }
    }

    /// `LinkedHashMap::len`: how many entries the map holds.
    #[verifier::external_body]
    pub(crate) fn len(&self) -> (n: usize)
        ensures
            n == segment_entries(*self).len(),
    {
        self.map.len()
    }

    /// `LinkedHashMap::contains_key`: whether an entry has this key.
    #[verifier::external_body]
    pub(crate) fn contains_key(&self, k: &[u8]) -> (b: bool)
        ensures
            b == has_key(segment_entries(*self), k@),
    {
        self.map.contains_key(k)
    }

    /// `LinkedHashMap::insert`: the entry stands at the back afterwards; an
    /// entry that had the key is gone, the others keep their order.
    #[verifier::external_body]
    pub(crate) fn insert(&mut self, k: Vec<u8>, v: Arc<Vec<u8>>)
        ensures
            segment_entries(*final(self)) == without_key(segment_entries(*old(self)), k@).push(
                (k@, v@),
            ),
    {
        self.map.insert(k, v);
    }

    /// `LinkedHashMap::remove`: takes the entry with this key out, where there
    /// is one, and hands out its value.
    #[verifier::external_body]
    pub(crate) fn remove(&mut self, k: &[u8]) -> (v: Option<Arc<Vec<u8>>>)
        ensures
            segment_entries(*final(self)) == without_key(segment_entries(*old(self)), k@),
            match v {
                Some(v) => has_key(segment_entries(*old(self)), k@) && v@ == segment_entries(
                    *old(self),
                )[slot_of(segment_entries(*old(self)), k@)].1,
                None => !has_key(segment_entries(*old(self)), k@),
            },
    {
        self.map.remove(k)
    }

    /// `LinkedHashMap::pop_front`: takes the entry at the front out, unless the
    /// map is empty.
    #[verifier::external_body]
    pub(crate) fn pop_front(&mut self) -> (e: Option<(Vec<u8>, Arc<Vec<u8>>)>)
        ensures
            match e {
                Some((k, v)) => segment_entries(*old(self)).len() > 0 && segment_entries(*old(self))[0]
                    == (k@, v@) && segment_entries(*final(self)) == segment_entries(
                    *old(self),
                ).drop_first(),
                None => segment_entries(*old(self)).len() == 0 && segment_entries(*final(self))
                    == segment_entries(*old(self)),
            },
    {
        self.map.pop_front()
    }

    /// `LinkedHashMap::clear`: the map holds no entries afterwards.
    #[verifier::external_body]
    pub(crate) fn clear(&mut self)
        ensures
            segment_entries(*final(self)) == Seq::<CacheEntry>::empty(),
    {
        self.map.clear()
    }
}

/// A `hashlink::LruCache` from inode ids to shared inodes.
#[verifier::external_body]
pub struct InodeCache {
    map: LruCache<u64, Arc<Inode>>,
}

/// The cached inodes by their ids, from the least to the most recently used.
pub uninterp spec fn cached_inodes(c: InodeCache) -> Seq<(u64, InodeModel)>;

/// The most inodes that the cache keeps.
pub uninterp spec fn inode_cache_capacity(c: InodeCache) -> nat;

/// `s` without its front where it is longer than `capacity`.
pub open spec fn trimmed<K, V>(s: Seq<(K, V)>, capacity: nat) -> Seq<(K, V)> {
    if s.len() > capacity {
        s.drop_first()
    } else {
        s
    }
}

impl InodeCache {
    /// `LruCache::new`: a cache for `capacity` inodes that holds none.
    #[verifier::external_body]
    pub(crate) fn new(capacity: usize) -> (c: InodeCache)
        ensures
            cached_inodes(c) == Seq::<(u64, InodeModel)>::empty(),
            inode_cache_capacity(c) == capacity,
    {
        InodeCache { map: LruCache::new(capacity) }
    }

    /// `LruCache::get`: the inode under this id, which stands at the back
    /// afterwards; where there is none, nothing changes.
    #[verifier::external_body]
    pub(crate) fn get(&mut self, id: u64) -> (r: Option<Arc<Inode>>)
        ensures
            inode_cache_capacity(*final(self)) == inode_cache_capacity(*old(self)),
            match r {
                Some(inode) => has_key(cached_inodes(*old(self)), id) && cached_inodes(
                    *old(self),
                )[slot_of(cached_inodes(*old(self)), id)].1 == (*inode)@ && cached_inodes(
                    *final(self),
                ) == without_key(cached_inodes(*old(self)), id).push((id, (*inode)@)),
                None => !has_key(cached_inodes(*old(self)), id) && cached_inodes(*final(self))
                    == cached_inodes(*old(self)),
            },
    {
        self.map.get(&id).cloned()
    }

    /// `LruCache::insert`: the inode stands at the back afterwards, in place of
    /// one that had the id; where the cache then holds more than its capacity,
    /// the front is gone.
    #[verifier::external_body]
    pub(crate) fn insert(&mut self, id: u64, inode: Arc<Inode>)
        ensures
            inode_cache_capacity(*final(self)) == inode_cache_capacity(*old(self)),
            cached_inodes(*final(self)) == trimmed(
                without_key(cached_inodes(*old(self)), id).push((id, (*inode)@)),
                inode_cache_capacity(*old(self)),
            ),
    {
        self.map.insert(id, inode);
    }
}

} // verus!
