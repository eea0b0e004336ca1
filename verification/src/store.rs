//! The index of known files.

use std::collections::hash_map::DefaultHasher;
use std::hash::{Hash, Hasher};

use vstd::prelude::*;
use vstd::std_specs::hash::DefaultHasherAdditionalSpecFns;
use vstd::utf8::encode_utf8;

use crate::cache::counted;
use crate::codec::{be64, lemma_be64_injective, u64_be};
use crate::order::{
    begins_with, has_prefix, lemma_past_the_prefix, lemma_prefixed_not_before, OrderedKey,
};
use crate::sorted::{
    ascending, entries_of, lemma_finite_map_has_entries, lemma_map_of_entry, lemma_map_of_key,
    map_of, SortedMap,
};
use crate::text::{lowercase, to_lower};

verus! {

/// A single indexed file's metadata, frequency, and recency state.
#[derive(Debug)]
pub struct FileEntry {
    pub path: String,
    pub file_name: String,
    pub extension: String,
    pub parent: String,
    pub size: u64,
    pub modified: i64,
    pub depth: usize,
    pub freq: u64,
    pub last_open: i64,
}

impl FileEntry {
    /// The key under which the entry is indexed.
    pub fn key(&self) -> (k: u64)
        ensures
            k == path_key(self.path@),
    {
        hash_path(self.path.as_str())
    }

    pub fn copy(&self) -> (e: FileEntry)
        ensures
            e == *self,
    {
        FileEntry {
            path: self.path.clone(),
            file_name: self.file_name.clone(),
            extension: self.extension.clone(),
            parent: self.parent.clone(),
            size: self.size,
            modified: self.modified,
            depth: self.depth,
            freq: self.freq,
            last_open: self.last_open,
        }
    }
}

/// What a hasher has been fed once a text is hashed into it.
pub uninterp spec fn hashed_text(fed: Seq<Seq<u8>>, s: Seq<char>) -> Seq<Seq<u8>>;

/// `<str as Hash>::hash` on a `DefaultHasher`: what the hasher is fed depends
/// on the text alone.
#[verifier::external_body]
fn hash_text(s: &str, hasher: &mut DefaultHasher)
    ensures
        final(hasher)@ == hashed_text(old(hasher)@, s@),
{
    s.hash(hasher);
}

/// The hash of a path.
pub open spec fn path_key(path: Seq<char>) -> u64 {
    DefaultHasher::spec_finish(hashed_text(Seq::empty(), path))
}

pub fn hash_path(path: &str) -> (h: u64)
    ensures
        h == path_key(path@),
{
    let mut hasher = DefaultHasher::new();
    hash_text(path, &mut hasher);
    hasher.finish()
}

/// The bytes with which the links of a name begin: the name in lower case and
/// a zero byte.
pub open spec fn link_prefix(name: Seq<char>) -> Seq<u8> {
    encode_utf8(lowercase(name)).push(0)
}

/// The link from a name to the entry under the key `h`.
pub open spec fn link_key(name: Seq<char>, h: u64) -> Seq<u8> {
    link_prefix(name) + be64(h)
}

proof fn lemma_link_key_injective(a: Seq<char>, g: u64, b: Seq<char>, h: u64)
    requires
        link_key(a, g) == link_key(b, h),
    ensures
        g == h,
{
    let k = link_key(a, g);
    let n = k.len() as int;
    assert(k.subrange(n - 8, n) =~= be64(g));
    assert(k.subrange(n - 8, n) =~= be64(h));
    lemma_be64_injective(g, h);
}

/// What entries are linked by.
#[derive(Clone, Copy)]
pub enum LinkKind {
    Parent,
    Name,
}

/// The name by which an entry is linked.
pub open spec fn linked_name(kind: LinkKind, e: FileEntry) -> Seq<char> {
    match kind {
        LinkKind::Parent => e.parent@,
        LinkKind::Name => e.file_name@,
    }
}

/// `k` is the link to the entry under `h`.
pub open spec fn links_to(kind: LinkKind, index: Map<u64, FileEntry>, k: Seq<u8>, h: u64) -> bool {
    index.contains_key(h) && k == link_key(linked_name(kind, index[h]), h)
}

/// The links to all entries.
pub open spec fn links_of(kind: LinkKind, index: Map<u64, FileEntry>) -> Map<Seq<u8>, u64> {
    Map::new(
        |k: Seq<u8>| exists|h: u64| links_to(kind, index, k, h),
        |k: Seq<u8>| choose|h: u64| links_to(kind, index, k, h),
    )
}

proof fn lemma_link_of(kind: LinkKind, index: Map<u64, FileEntry>, h: u64)
    requires
        index.contains_key(h),
    ensures
        links_of(kind, index).contains_key(link_key(linked_name(kind, index[h]), h)),
        links_of(kind, index)[link_key(linked_name(kind, index[h]), h)] == h,
{
    let k = link_key(linked_name(kind, index[h]), h);
    assert(links_to(kind, index, k, h));
    let g = choose|g: u64| links_to(kind, index, k, g);
    lemma_link_key_injective(linked_name(kind, index[g]), g, linked_name(kind, index[h]), h);
}

/// What putting an entry in the index does to the links.
proof fn lemma_links_insert(kind: LinkKind, index: Map<u64, FileEntry>, h: u64, e: FileEntry)
    ensures
        ({
            let before = if index.contains_key(h) {
                links_of(kind, index).remove(link_key(linked_name(kind, index[h]), h))
            } else {
                links_of(kind, index)
            };
            links_of(kind, index.insert(h, e)) == before.insert(
                link_key(linked_name(kind, e), h),
                h,
            )
        }),
{
    let after = index.insert(h, e);
    let before = if index.contains_key(h) {
        links_of(kind, index).remove(link_key(linked_name(kind, index[h]), h))
    } else {
        links_of(kind, index)
    };
    let want = before.insert(link_key(linked_name(kind, e), h), h);
    let got = links_of(kind, after);
    lemma_link_of(kind, after, h);
    assert forall|k: Seq<u8>|
        #![trigger got.dom().contains(k)]
        got.dom().contains(k) == want.dom().contains(k) && (got.dom().contains(k) ==> got[k]
            == want[k]) by {
        if got.dom().contains(k) {
            let g = choose|g: u64| links_to(kind, after, k, g);
            lemma_link_of(kind, after, g);
            if g != h {
                assert(links_to(kind, index, k, g));
                lemma_link_of(kind, index, g);
                if index.contains_key(h) && k == link_key(linked_name(kind, index[h]), h) {
                    lemma_link_key_injective(
                        linked_name(kind, index[g]),
                        g,
                        linked_name(kind, index[h]),
                        h,
                    );
                }
            }
        }
        if want.dom().contains(k) && k != link_key(linked_name(kind, e), h) {
            let g = choose|g: u64| links_to(kind, index, k, g);
            if g != h {
                assert(links_to(kind, after, k, g));
            }
        }
    }
    assert(got =~= want);
}

/// What taking an entry out of the index does to the links.
proof fn lemma_links_remove(kind: LinkKind, index: Map<u64, FileEntry>, h: u64)
    requires
        index.contains_key(h),
    ensures
        links_of(kind, index.remove(h)) == links_of(kind, index).remove(
            link_key(linked_name(kind, index[h]), h),
        ),
{
    let after = index.remove(h);
    let want = links_of(kind, index).remove(link_key(linked_name(kind, index[h]), h));
    let got = links_of(kind, after);
    assert forall|k: Seq<u8>|
        #![trigger got.dom().contains(k)]
        got.dom().contains(k) == want.dom().contains(k) && (got.dom().contains(k) ==> got[k]
            == want[k]) by {
        if got.dom().contains(k) {
            let g = choose|g: u64| links_to(kind, after, k, g);
            lemma_link_of(kind, after, g);
            assert(links_to(kind, index, k, g));
            lemma_link_of(kind, index, g);
            if k == link_key(linked_name(kind, index[h]), h) {
                lemma_link_key_injective(
                    linked_name(kind, index[g]),
                    g,
                    linked_name(kind, index[h]),
                    h,
                );
            }
        }
        if want.dom().contains(k) {
            let g = choose|g: u64| links_to(kind, index, k, g);
            if g != h {
                assert(links_to(kind, after, k, g));
            }
        }
    }
    assert(got =~= want);
}

/// The keys that the links among the first `n` lead to whose names begin with
/// `prefix`.
pub open spec fn prefixed(links: Seq<(Seq<u8>, u64)>, prefix: Seq<u8>, n: int) -> Seq<u64>
    decreases n,
{
    if n <= 0 {
        Seq::empty()
    } else if has_prefix(links[n - 1].0, prefix) {
        prefixed(links, prefix, n - 1).push(links[n - 1].1)
    } else {
        prefixed(links, prefix, n - 1)
    }
}

proof fn lemma_prefixed_skips(links: Seq<(Seq<u8>, u64)>, prefix: Seq<u8>, m: int, n: int)
    requires
        0 <= m <= n,
        forall|i: int| m <= i < n ==> !has_prefix((#[trigger] links[i]).0, prefix),
    ensures
        prefixed(links, prefix, n) == prefixed(links, prefix, m),
    decreases n - m,
{
    if m < n {
        lemma_prefixed_skips(links, prefix, m, n - 1);
    }
}

/// Links from names to entries.
struct Links {
    map: SortedMap<Vec<u8>, u64>,
}

fn prefix_of(name: &str) -> (v: Vec<u8>)
    ensures
        v@ == link_prefix(name@),
{
    let lower = to_lower(name);
    let mut v = vstd::slice::slice_to_vec(lower.as_str().as_bytes());
    v.push(0);
    v
}

fn key_of(name: &str, h: u64) -> (v: Vec<u8>)
    ensures
        v@ == link_key(name@, h),
{
    let mut v = prefix_of(name);
    let b = u64_be(h);
    v.extend_from_slice(b.as_slice());
    assert(v@ =~= link_key(name@, h));
    v
}

impl Links {
    fn new() -> (l: Links)
        ensures
            l.map@ == Map::<Seq<u8>, u64>::empty(),
    {
        Links { map: SortedMap::new() }
    }

    fn link(&mut self, name: &str, h: u64)
        ensures
            final(self).map@ == old(self).map@.insert(link_key(name@, h), h),
    {
        self.map.insert(key_of(name, h), h);
    }

    fn unlink(&mut self, name: &str, h: u64)
        ensures
            final(self).map@ == old(self).map@.remove(link_key(name@, h)),
    {
        let _ = self.map.remove(&key_of(name, h));
    }

    /// The keys of the entries under a name.
    fn scan(&self, name: &str) -> (v: Vec<u64>)
        ensures
            v@ == prefixed(
                entries_of::<Vec<u8>, u64>(self.map@),
                link_prefix(name@),
                entries_of::<Vec<u8>, u64>(self.map@).len() as int,
            ),
            ascending::<Vec<u8>, u64>(entries_of::<Vec<u8>, u64>(self.map@)),
            map_of(entries_of::<Vec<u8>, u64>(self.map@)) == self.map@,
    {
        let n: usize = self.map.len();
        let ghost all = self.map.entries();
        let prefix = prefix_of(name);
        let start: usize = self.map.position(&prefix);
        let mut v: Vec<u64> = Vec::new();
        let mut i: usize = start;
        proof {
            assert forall|j: int| 0 <= j < start implies !has_prefix(
                (#[trigger] all[j]).0,
                prefix@,
            ) by {
                if has_prefix(all[j].0, prefix@) {
                    lemma_prefixed_not_before(all[j].0, prefix@);
                }
            }
            lemma_prefixed_skips(all, prefix@, 0, start as int);
        }
        while i < n
            invariant
                n == all.len(),
                all == self.map.entries(),
                ascending::<Vec<u8>, u64>(all),
                start <= i <= n,
                forall|j: int|
                    start <= j < n ==> !<Vec<u8> as OrderedKey>::before(
                        (#[trigger] all[j]).0,
                        prefix@,
                    ),
                v@ == prefixed(all, prefix@, i as int),
            ensures
                v@ == prefixed(all, prefix@, n as int),
            decreases n - i,
        {
            let e = self.map.entry(i);
            if !begins_with(e.0.as_slice(), prefix.as_slice()) {
                proof {
                    assert forall|j: int| i <= j < n implies !has_prefix(
                        (#[trigger] all[j]).0,
                        prefix@,
                    ) by {
                        if j > i {
                            assert(<Vec<u8> as OrderedKey>::before(all[i as int].0, all[j].0));
                            lemma_past_the_prefix(all[i as int].0, all[j].0, prefix@);
                        }
                    }
                    lemma_prefixed_skips(all, prefix@, i as int, n as int);
                }
                break;
            }
            v.push(*e.1);
            i = i + 1;
        }
        v
    }
}

/// The index of known files, by the hash of their paths, with links from parent
/// directories and from file names.
pub struct Store {
    index: SortedMap<u64, FileEntry>,
    by_parent: Links,
    by_name: Links,
}

impl View for Store {
    type V = Map<u64, FileEntry>;

    closed spec fn view(&self) -> Map<u64, FileEntry> {
        self.index@
    }
}

/// The entries that are linked under a name, in the order of the links.
pub open spec fn entries_under(kind: LinkKind, index: Map<u64, FileEntry>, name: Seq<char>) -> Seq<
    FileEntry,
> {
    let links = entries_of::<Vec<u8>, u64>(links_of(kind, index));
    let keys = prefixed(links, link_prefix(name), links.len() as int);
    Seq::new(keys.len(), |i: int| index[keys[i]])
}

/// All entries in ascending order of their keys.
pub open spec fn all_of(index: Map<u64, FileEntry>) -> Seq<FileEntry> {
    let all = entries_of::<u64, FileEntry>(index);
    Seq::new(all.len(), |i: int| all[i].1)
}

/// The index with an entry put under the hash of its path.
pub open spec fn upserted(index: Map<u64, FileEntry>, e: FileEntry) -> Map<u64, FileEntry> {
    index.insert(path_key(e.path@), e)
}

/// The entry with the frequency and recency of the one that it replaces.
pub open spec fn with_stats(index: Map<u64, FileEntry>, e: FileEntry) -> FileEntry {
    let h = path_key(e.path@);
    if index.contains_key(h) {
        FileEntry { freq: index[h].freq, last_open: index[h].last_open, ..e }
    } else {
        e
    }
}

/// The entry after one more open.
pub open spec fn opened(e: FileEntry, now: i64) -> FileEntry {
    FileEntry { freq: counted(e.freq, 1), last_open: now, ..e }
}

/// Every entry is indexed by the hash of its path.
pub open spec fn keyed(index: Map<u64, FileEntry>) -> bool {
    forall|h: u64| #[trigger] index.contains_key(h) ==> path_key(index[h].path@) == h
}

impl Store {
    pub closed spec fn wf(&self) -> bool {
        &&& keyed(self.index@)
        &&& self.by_parent.map@ == links_of(LinkKind::Parent, self.index@)
        &&& self.by_name.map@ == links_of(LinkKind::Name, self.index@)
    }

    /// What [`Store::wf`] says of the index, and that it is finite.
    pub proof fn lemma_wf(&self)
        requires
            self.wf(),
        ensures
            keyed(self@),
            self@.dom().finite(),
    {
        self.index.lemma_finite();
    }

    pub fn new() -> (s: Store)
        ensures
            s.wf(),
            s@ == Map::<u64, FileEntry>::empty(),
    {
        let s = Store { index: SortedMap::new(), by_parent: Links::new(), by_name: Links::new() };
        assert(s.by_parent.map@ =~= links_of(LinkKind::Parent, s.index@));
        assert(s.by_name.map@ =~= links_of(LinkKind::Name, s.index@));
        s
    }

    /// Puts an entry in the index, in place of one with the same key.
    pub fn upsert(&mut self, entry: FileEntry)
        requires
            old(self).wf(),
        ensures
            final(self).wf(),
            final(self)@ == upserted(old(self)@, entry),
    {
        let h = entry.key();
        proof {
            lemma_links_insert(LinkKind::Parent, self@, h, entry);
            lemma_links_insert(LinkKind::Name, self@, h, entry);
        }
        if let Some(old_entry) = self.index.get(&h) {
            self.by_parent.unlink(old_entry.parent.as_str(), h);
            self.by_name.unlink(old_entry.file_name.as_str(), h);
        }
        self.by_parent.link(entry.parent.as_str(), h);
        self.by_name.link(entry.file_name.as_str(), h);
        self.index.insert(h, entry);
    }

    /// Upsert but preserve existing freq/last_open if the entry already exists.
    pub fn upsert_preserving_stats(&mut self, entry: FileEntry)
        requires
            old(self).wf(),
        ensures
            final(self).wf(),
            final(self)@ == upserted(old(self)@, with_stats(old(self)@, entry)),
    {
        let mut entry = entry;
        let h = entry.key();
        if let Some(old_entry) = self.index.get(&h) {
            entry.freq = old_entry.freq;
            entry.last_open = old_entry.last_open;
        }
        self.upsert(entry);
    }

    /// Takes the entry of a path out of the index.
    pub fn remove(&mut self, path: &str) -> (r: Option<FileEntry>)
        requires
            old(self).wf(),
        ensures
            final(self).wf(),
            final(self)@ == old(self)@.remove(path_key(path@)),
            match r {
                Some(e) => old(self)@.contains_key(path_key(path@)) && e
                    == old(self)@[path_key(path@)],
                None => !old(self)@.contains_key(path_key(path@)),
            },
    {
        let h = hash_path(path);
        let r = self.index.remove(&h);
        match &r {
            Some(e) => {
                proof {
                    lemma_links_remove(LinkKind::Parent, old(self)@, h);
                    lemma_links_remove(LinkKind::Name, old(self)@, h);
                }
                self.by_parent.unlink(e.parent.as_str(), h);
                self.by_name.unlink(e.file_name.as_str(), h);
            },
            None => {
                assert(self@ =~= old(self)@);
            },
        }
        r
    }

    /// Records that a file was opened. The entry as it is afterwards, or `None`
    /// where the path is not indexed.
    pub fn touch_open(&mut self, path: &str, now: i64) -> (r: Option<FileEntry>)
        requires
            old(self).wf(),
        ensures
            final(self).wf(),
            ({
                let h = path_key(path@);
                if old(self)@.contains_key(h) {
                    let e = opened(old(self)@[h], now);
                    r == Some(e) && final(self)@ == old(self)@.insert(h, e)
                } else {
                    r is None && final(self)@ == old(self)@
                }
            }),
            r matches Some(e) ==> {
                let before = old(self)@[path_key(path@)];
                &&& before.freq < u64::MAX ==> e.freq == before.freq + 1
                &&& e.last_open == now
            },
    {
        let h = hash_path(path);
        let mut e: FileEntry = match self.index.get(&h) {
            Some(e) => e.copy(),
            None => {
                return None;
            },
        };
        e.freq = e.freq.wrapping_add(1);
        e.last_open = now;
        let r = e.copy();
        proof {
            lemma_links_insert(LinkKind::Parent, self@, h, e);
            lemma_links_insert(LinkKind::Name, self@, h, e);
            lemma_link_of(LinkKind::Parent, self@, h);
            lemma_link_of(LinkKind::Name, self@, h);
        }
        self.index.insert(h, e);
        proof {
            assert(self.by_parent.map@ =~= links_of(LinkKind::Parent, self@));
            assert(self.by_name.map@ =~= links_of(LinkKind::Name, self@));
        }
        Some(r)
    }

    /// The files in a directory.
    pub fn files_in(&self, parent: &str) -> (v: Vec<FileEntry>)
        requires
            self.wf(),
        ensures
            v@ == entries_under(LinkKind::Parent, self@, parent@),
    {
        let keys = self.by_parent.scan(parent);
        self.collect(LinkKind::Parent, parent, &keys)
    }

    /// The entry of a path, to be saved when it has changed.
    pub fn lookup(&self, path: &str) -> (r: Option<FileEntry>)
        ensures
            match r {
                Some(e) => self@.contains_key(path_key(path@)) && e == self@[path_key(path@)],
                None => !self@.contains_key(path_key(path@)),
            },
    {
        match self.index.get(&hash_path(path)) {
            Some(e) => Some(e.copy()),
            None => None,
        }
    }

    /// The files with a name.
    pub fn files_named(&self, name: &str) -> (v: Vec<FileEntry>)
        requires
            self.wf(),
        ensures
            v@ == entries_under(LinkKind::Name, self@, name@),
    {
        let keys = self.by_name.scan(name);
        self.collect(LinkKind::Name, name, &keys)
    }

    fn collect(&self, kind: LinkKind, name: &str, keys: &Vec<u64>) -> (v: Vec<FileEntry>)
        requires
            self.wf(),
            ({
                let links = entries_of::<Vec<u8>, u64>(links_of(kind, self@));
                keys@ == prefixed(links, link_prefix(name@), links.len() as int)
            }),
            ascending::<Vec<u8>, u64>(entries_of::<Vec<u8>, u64>(links_of(kind, self@))),
            map_of(entries_of::<Vec<u8>, u64>(links_of(kind, self@))) == links_of(kind, self@),
        ensures
            v@ == entries_under(kind, self@, name@),
    {
        let ghost links = entries_of::<Vec<u8>, u64>(links_of(kind, self@));
        proof {
            lemma_prefixed_indexed(kind, self@, links, link_prefix(name@), links.len() as int);
        }
        let mut v: Vec<FileEntry> = Vec::new();
        let mut i: usize = 0;
        while i < keys.len()
            invariant
                forall|j: int| 0 <= j < keys@.len() ==> self@.contains_key(#[trigger] keys@[j]),
                i <= keys@.len(),
                v@.len() == i,
                forall|j: int| 0 <= j < i ==> #[trigger] v@[j] == self@[keys@[j]],
            decreases keys@.len() - i,
        {
            if let Some(e) = self.index.get(&keys[i]) {
                v.push(e.copy());
            }
            i = i + 1;
        }
        assert(v@ =~= entries_under(kind, self@, name@));
        v
    }

    /// All entries in ascending order of their keys.
    pub fn all_entries(&self) -> (v: Vec<FileEntry>)
        ensures
            v@ == all_of(self@),
    {
        let n: usize = self.index.len();
        let mut v: Vec<FileEntry> = Vec::new();
        let mut i: usize = 0;
        while i < n
            invariant
                n == self.index.entries().len(),
                i == v@.len(),
                i <= n,
                forall|j: int| 0 <= j < i ==> #[trigger] v@[j] == self.index.entries()[j].1,
            decreases n - i,
        {
            v.push(self.index.entry(i).1.copy());
            i = i + 1;
        }
        assert(v@ =~= all_of(self@));
        v
    }

    /// The number of indexed files.
    pub fn len(&self) -> (n: usize)
        ensures
            n == all_of(self@).len(),
    {
        self.index.len()
    }
}

/// Every key that a link leads to is in the index.
proof fn lemma_prefixed_indexed(
    kind: LinkKind,
    index: Map<u64, FileEntry>,
    links: Seq<(Seq<u8>, u64)>,
    prefix: Seq<u8>,
    n: int,
)
    requires
        ascending::<Vec<u8>, u64>(links),
        map_of(links) == links_of(kind, index),
        0 <= n <= links.len(),
    ensures
        forall|j: int|
            0 <= j < prefixed(links, prefix, n).len() ==> index.contains_key(
                #[trigger] prefixed(links, prefix, n)[j],
            ),
    decreases n,
{
    if n > 0 {
        lemma_prefixed_indexed(kind, index, links, prefix, n - 1);
        let before = prefixed(links, prefix, n - 1);
        let now = prefixed(links, prefix, n);
        let h = links[n - 1].1;
        assert(index.contains_key(h)) by {
            lemma_map_of_entry::<Vec<u8>, u64>(links, n - 1);
            assert(links_to(kind, index, links[n - 1].0, h));
        }
        assert forall|j: int| 0 <= j < now.len() implies index.contains_key(#[trigger] now[j]) by {
            if j < before.len() {
                assert(now[j] == before[j]);
            }
        }
    }
}

/// The links of finitely many entries can be listed.
proof fn lemma_links_finite(kind: LinkKind, index: Map<u64, FileEntry>)
    requires
        index.dom().finite(),
    ensures
        links_of(kind, index).dom().finite(),
    decreases index.dom().len(),
{
    if index.dom().len() == 0 {
        assert(index.dom() =~= Set::empty());
        assert(links_of(kind, index).dom() =~= Set::empty());
    } else {
        let h = index.dom().choose();
        let rest = index.remove(h);
        assert(rest.dom() =~= index.dom().remove(h));
        lemma_links_finite(kind, rest);
        lemma_links_insert(kind, rest, h, index[h]);
        assert(rest.insert(h, index[h]) =~= index);
        let k = link_key(linked_name(kind, index[h]), h);
        assert(links_of(kind, index).dom() =~= links_of(kind, rest).dom().insert(k));
    }
}

/// A link with the prefix is among those that a scan gives.
proof fn lemma_prefixed_contains(links: Seq<(Seq<u8>, u64)>, prefix: Seq<u8>, n: int, i: int)
    requires
        0 <= i < n <= links.len(),
        has_prefix(links[i].0, prefix),
    ensures
        prefixed(links, prefix, n).contains(links[i].1),
    decreases n,
{
    let now = prefixed(links, prefix, n);
    if i == n - 1 {
        assert(now[now.len() - 1] == links[i].1);
    } else {
        lemma_prefixed_contains(links, prefix, n - 1, i);
        let before = prefixed(links, prefix, n - 1);
        let j = choose|j: int| 0 <= j < before.len() && before[j] == links[i].1;
        assert(now[j] == before[j]);
    }
}

/// What a scan gives comes from a link with the prefix.
proof fn lemma_prefixed_from(links: Seq<(Seq<u8>, u64)>, prefix: Seq<u8>, n: int, j: int) -> (i: int)
    requires
        0 <= n <= links.len(),
        0 <= j < prefixed(links, prefix, n).len(),
    ensures
        0 <= i < n,
        has_prefix(links[i].0, prefix),
        prefixed(links, prefix, n)[j] == links[i].1,
    decreases n,
{
    if has_prefix(links[n - 1].0, prefix) && j == prefixed(links, prefix, n - 1).len() {
        n - 1
    } else {
        lemma_prefixed_from(links, prefix, n - 1, j)
    }
}

/// No two of the files have the same path.
pub open spec fn distinct_files(files: Seq<FileEntry>) -> bool {
    forall|i: int, j: int|
        0 <= i < j < files.len() ==> (#[trigger] files[i]).path@ != (#[trigger] files[j]).path@
}

/// The index holds the entry.
pub open spec fn indexed(index: Map<u64, FileEntry>, e: FileEntry) -> bool {
    exists|h: u64| #[trigger] index.contains_key(h) && index[h] == e
}

/// Entries of the index with the same path are the same.
pub proof fn lemma_same_path(index: Map<u64, FileEntry>, a: FileEntry, b: FileEntry)
    requires
        keyed(index),
        indexed(index, a),
        indexed(index, b),
        a.path@ == b.path@,
    ensures
        a == b,
{
}

proof fn lemma_prefixed_distinct(links: Seq<(Seq<u8>, u64)>, prefix: Seq<u8>, n: int)
    requires
        0 <= n <= links.len(),
        forall|i: int, j: int|
            0 <= i < j < links.len() ==> (#[trigger] links[i]).1 != (#[trigger] links[j]).1,
    ensures
        forall|i: int, j: int|
            0 <= i < j < prefixed(links, prefix, n).len() ==> (#[trigger] prefixed(
                links,
                prefix,
                n,
            )[i]) != (#[trigger] prefixed(links, prefix, n)[j]),
    decreases n,
{
    if n > 0 {
        lemma_prefixed_distinct(links, prefix, n - 1);
        let before = prefixed(links, prefix, n - 1);
        let now = prefixed(links, prefix, n);
        assert forall|i: int, j: int| 0 <= i < j < now.len() implies (#[trigger] now[i]) != (
        #[trigger] now[j]) by {
            assert(now[i] == before[i]);
            if j < before.len() {
                assert(now[j] == before[j]);
            } else {
                let x = lemma_prefixed_from(links, prefix, n - 1, i);
                assert(links[x].1 != links[n - 1].1);
            }
        }
    }
}

/// The files that are found under a name are indexed, each of them once.
pub proof fn law_found_files_are_distinct(
    kind: LinkKind,
    index: Map<u64, FileEntry>,
    name: Seq<char>,
)
    requires
        index.dom().finite(),
        keyed(index),
    ensures
        distinct_files(entries_under(kind, index, name)),
        forall|i: int|
            0 <= i < entries_under(kind, index, name).len() ==> indexed(
                index,
                #[trigger] entries_under(kind, index, name)[i],
            ),
{
    let links = links_of(kind, index);
    lemma_links_finite(kind, index);
    lemma_finite_map_has_entries::<Vec<u8>, u64>(links);
    let all = entries_of::<Vec<u8>, u64>(links);
    let prefix = link_prefix(name);
    assert forall|i: int| 0 <= i < all.len() implies links_to(
        kind,
        index,
        (#[trigger] all[i]).0,
        all[i].1,
    ) by {
        lemma_map_of_entry::<Vec<u8>, u64>(all, i);
        assert(links.contains_key(all[i].0));
    }
    assert forall|i: int, j: int| 0 <= i < j < all.len() implies (#[trigger] all[i]).1 != (
    #[trigger] all[j]).1 by {
        assert(links_to(kind, index, all[i].0, all[i].1));
        assert(links_to(kind, index, all[j].0, all[j].1));
        if all[i].1 == all[j].1 {
            assert(all[i].0 == all[j].0);
            assert(<Vec<u8> as OrderedKey>::before(all[i].0, all[j].0));
            <Vec<u8> as OrderedKey>::irreflexive(all[i].0);
        }
    }
    let n = all.len() as int;
    lemma_prefixed_distinct(all, prefix, n);
    let keys = prefixed(all, prefix, n);
    let found = entries_under(kind, index, name);
    assert forall|i: int| 0 <= i < found.len() implies index.contains_key(#[trigger] keys[i]) by {
        let x = lemma_prefixed_from(all, prefix, n, i);
        assert(links_to(kind, index, all[x].0, all[x].1));
    }
    assert forall|i: int| 0 <= i < found.len() implies indexed(index, #[trigger] found[i]) by {
        assert(index.contains_key(keys[i]));
    }
    assert forall|i: int, j: int| 0 <= i < j < found.len() implies (#[trigger] found[i]).path@ != (
    #[trigger] found[j]).path@ by {
        assert(keys[i] != keys[j]);
        assert(index.contains_key(keys[i]) && index.contains_key(keys[j]));
    }
}

/// A list of all files holds each of them once.
pub proof fn law_all_files_are_distinct(index: Map<u64, FileEntry>)
    requires
        index.dom().finite(),
        keyed(index),
    ensures
        distinct_files(all_of(index)),
        forall|i: int| 0 <= i < all_of(index).len() ==> indexed(index, #[trigger] all_of(index)[i]),
        forall|h: u64| #[trigger] index.contains_key(h) ==> all_of(index).contains(index[h]),
{
    lemma_finite_map_has_entries::<u64, FileEntry>(index);
    let all = entries_of::<u64, FileEntry>(index);
    let found = all_of(index);
    assert forall|i: int| 0 <= i < found.len() implies indexed(index, #[trigger] found[i]) by {
        lemma_map_of_entry::<u64, FileEntry>(all, i);
        assert(index.contains_key(all[i].0));
    }
    assert forall|i: int, j: int| 0 <= i < j < found.len() implies (#[trigger] found[i]).path@ != (
    #[trigger] found[j]).path@ by {
        lemma_map_of_entry::<u64, FileEntry>(all, i);
        lemma_map_of_entry::<u64, FileEntry>(all, j);
        assert(index.contains_key(all[i].0) && index.contains_key(all[j].0));
        assert(<u64 as OrderedKey>::before(all[i].0, all[j].0));
    }
    assert forall|h: u64| #[trigger] index.contains_key(h) implies found.contains(index[h]) by {
        let i = lemma_map_of_key(all, h);
        assert(found[i] == index[h]);
    }
}

/// Every indexed file is found under its parent directory, and under its name,
/// in whatever case they are written.
pub proof fn law_indexed_file_is_found(
    kind: LinkKind,
    index: Map<u64, FileEntry>,
    h: u64,
    name: Seq<char>,
)
    requires
        index.dom().finite(),
        index.contains_key(h),
        lowercase(name) == lowercase(linked_name(kind, index[h])),
    ensures
        entries_under(kind, index, name).contains(index[h]),
{
    let links = links_of(kind, index);
    lemma_links_finite(kind, index);
    lemma_finite_map_has_entries::<Vec<u8>, u64>(links);
    let all = entries_of::<Vec<u8>, u64>(links);
    lemma_link_of(kind, index, h);
    let k = link_key(linked_name(kind, index[h]), h);
    let i = lemma_map_of_key(all, k);
    let prefix = link_prefix(name);
    assert(k.take(prefix.len() as int) =~= prefix);
    lemma_prefixed_contains(all, prefix, all.len() as int, i);
    let keys = prefixed(all, prefix, all.len() as int);
    let j = choose|j: int| 0 <= j < keys.len() && keys[j] == h;
    assert(entries_under(kind, index, name)[j] == index[h]);
}

/// No zero byte occurs.
pub open spec fn zero_free(s: Seq<u8>) -> bool {
    forall|i: int| 0 <= i < s.len() ==> #[trigger] s[i] != 0
}

/// A file that is found under a name has that name, up to case; names with
/// zero characters are left out.
pub proof fn law_found_file_has_the_name(
    kind: LinkKind,
    index: Map<u64, FileEntry>,
    name: Seq<char>,
    j: int,
)
    requires
        index.dom().finite(),
        0 <= j < entries_under(kind, index, name).len(),
        zero_free(encode_utf8(lowercase(name))),
        zero_free(
            encode_utf8(lowercase(linked_name(kind, entries_under(kind, index, name)[j]))),
        ),
    ensures
        lowercase(linked_name(kind, entries_under(kind, index, name)[j])) == lowercase(name),
{
    let links = links_of(kind, index);
    lemma_links_finite(kind, index);
    lemma_finite_map_has_entries::<Vec<u8>, u64>(links);
    let all = entries_of::<Vec<u8>, u64>(links);
    let prefix = link_prefix(name);
    let i = lemma_prefixed_from(all, prefix, all.len() as int, j);
    lemma_map_of_entry::<Vec<u8>, u64>(all, i);
    let k = all[i].0;
    let h = all[i].1;
    assert(links_to(kind, index, k, h));
    let other = linked_name(kind, index[h]);
    let a = encode_utf8(lowercase(name));
    let b = encode_utf8(lowercase(other));
    assert(k.take(prefix.len() as int) == prefix);
    assert(prefix[a.len() as int] == 0);
    assert(k[a.len() as int] == k.take(prefix.len() as int)[a.len() as int]);
    assert(k[b.len() as int] == 0);
    if b.len() < a.len() {
        assert(a[b.len() as int] == prefix[b.len() as int]);
        assert(prefix[b.len() as int] == k.take(prefix.len() as int)[b.len() as int]);
    }
    if a.len() < b.len() {
        assert(k[a.len() as int] == b[a.len() as int]);
    }
    assert forall|x: int| 0 <= x < a.len() implies a[x] == b[x] by {
        assert(a[x] == prefix[x]);
        assert(prefix[x] == k.take(prefix.len() as int)[x]);
    }
    assert(a =~= b);
    vstd::utf8::encode_utf8_decode_utf8(lowercase(name));
    vstd::utf8::encode_utf8_decode_utf8(lowercase(other));
}

/// A file that is indexed again keeps how often and when it was opened.
pub proof fn law_reindexing_keeps_the_history(index: Map<u64, FileEntry>, e: FileEntry)
    requires
        index.contains_key(path_key(e.path@)),
    ensures
        ({
            let after = upserted(index, with_stats(index, e))[path_key(e.path@)];
            let before = index[path_key(e.path@)];
            &&& after.freq == before.freq
            &&& after.last_open == before.last_open
            &&& after.size == e.size
            &&& after.modified == e.modified
        }),
{
}

} // verus!
