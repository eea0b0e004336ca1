//! A lightweight copy-on-write, content-addressed filesystem.
//!
//! [`Filesystem`] keeps the inode table, the root pointer, the snapshots and
//! the block store. Block data is read from and written to a log file by the
//! caller; which bytes go where is said by [`Filesystem::log_tail`],
//! [`Filesystem::fetch`] and [`Filesystem::gc_reads`].

use std::sync::Arc;

use vstd::prelude::*;

use crate::blockstore::{
    contents, digest, places, record, Block, BlockStore, BlocksModel, CompactStats, Extent, Lookup,
    Refusal, Scrub, ScrubModel, BLOCK_SIZE,
};
use crate::cache::{CacheModel, CacheStats};
use crate::inode::{addresses, copy_entries, kind_text, Inode, Stat, SuperBlock};
use crate::linked::{
    cached_inodes, distinct_keys, has_key, inode_cache_capacity, slot_of, trimmed, without_key, InodeCache,
};
use crate::sorted::{
    ascending, entries_of, lemma_entries_unique, lemma_map_of_entry, map_of, SortedMap,
};
use crate::text::{decimal, decimal_text, hex_text, runs, split_runs, texts};
use crate::tree::{
    dir_children, dir_entries, empty_dir, ends, ends_all, graft, law_walk_depth,
    lemma_ends_all_part, lemma_graft_ids, lemma_visited_all_fails, lemma_visited_is, listed,
    resolve, visited, visited_all, walk_all_within, walk_within, Fault, InodeModel, Tree,
};

verus! {

/// Default RAM budget for the block cache: a strict 1 GiB.
pub const DEFAULT_CACHE_BYTES: u64 = 1024 * 1024 * 1024;

/// Number of (immutable) inodes kept hot in RAM.
const INODE_CACHE_ENTRIES: usize = 65_536;

/// Files at or below this size are stored inline in the inode (small-file fast
/// path) instead of as content-addressed blocks. 4 KiB matches a typical page.
pub const INLINE_MAX: usize = 4096;

/// The permission bits of a new file.
pub const FILE_MODE: u32 = 0o644;

/// Why an operation failed.
#[derive(Debug, PartialEq, Eq)]
pub enum FsError {
    WriteRoot,
    RemoveRoot,
    RenameRoot,
    IsDirectory(String),
    IsFile(String),
    NoSuchComponent(String),
    NotADirectory(String),
    TraversesFile,
    NoSuchEntry(String),
    NoSuchSnapshot(String),
    DanglingInode(u64),
    BlockNotFound(crate::blockstore::Hash),
    IntegrityFailed { expected: crate::blockstore::Hash, actual: crate::blockstore::Hash },
}

impl View for FsError {
    type V = Fault;

    open spec fn view(&self) -> Fault {
        match *self {
            FsError::WriteRoot => Fault::WriteRoot,
            FsError::RemoveRoot => Fault::RemoveRoot,
            FsError::RenameRoot => Fault::RenameRoot,
            FsError::IsDirectory(p) => Fault::IsDirectory(p@),
            FsError::IsFile(p) => Fault::IsFile(p@),
            FsError::NoSuchComponent(c) => Fault::NoSuchComponent(c@),
            FsError::NotADirectory(c) => Fault::NotADirectory(c@),
            FsError::TraversesFile => Fault::TraversesFile,
            FsError::NoSuchEntry(n) => Fault::NoSuchEntry(n@),
            FsError::NoSuchSnapshot(n) => Fault::NoSuchSnapshot(n@),
            FsError::DanglingInode(id) => Fault::DanglingInode(id),
            FsError::BlockNotFound(h) => Fault::BlockNotFound(h@),
            FsError::IntegrityFailed { expected, actual } => Fault::IntegrityFailed {
                expected: expected@,
                actual: actual@,
            },
        }
    }
}

/// What is said of a failure.
pub open spec fn fault_text(f: Fault) -> Seq<char> {
    match f {
        Fault::WriteRoot => "cannot write to root"@,
        Fault::RemoveRoot => "cannot remove root"@,
        Fault::RenameRoot => "cannot rename root"@,
        Fault::IsDirectory(p) => p + " is a directory"@,
        Fault::IsFile(p) => p + " is a file"@,
        Fault::NoSuchComponent(c) => "no such path component: "@ + c,
        Fault::NotADirectory(c) => c + " is not a directory"@,
        Fault::TraversesFile => "path traverses a file"@,
        Fault::NoSuchEntry(n) => "no such entry: "@ + n,
        Fault::NoSuchSnapshot(n) => "no such snapshot: "@ + n,
        Fault::DanglingInode(id) => "dangling inode "@ + decimal_text(id as nat),
        Fault::BlockNotFound(h) => "block not found: "@ + hex_text(h),
        Fault::IntegrityFailed { expected, actual } => "integrity check failed: block "@ + hex_text(
            expected,
        ) + " hashed to "@ + hex_text(actual),
    }
}

impl FsError {
    /// The failure in words.
    pub fn message(&self) -> (s: String)
        ensures
            s@ == fault_text(self@),
    {
        match self {
            FsError::WriteRoot => "cannot write to root".to_owned(),
            FsError::RemoveRoot => "cannot remove root".to_owned(),
            FsError::RenameRoot => "cannot rename root".to_owned(),
            FsError::IsDirectory(p) => p.clone().concat(" is a directory"),
            FsError::IsFile(p) => p.clone().concat(" is a file"),
            FsError::NoSuchComponent(c) => "no such path component: ".to_owned().concat(c.as_str()),
            FsError::NotADirectory(c) => c.clone().concat(" is not a directory"),
            FsError::TraversesFile => "path traverses a file".to_owned(),
            FsError::NoSuchEntry(n) => "no such entry: ".to_owned().concat(n.as_str()),
            FsError::NoSuchSnapshot(n) => "no such snapshot: ".to_owned().concat(n.as_str()),
            FsError::DanglingInode(id) => {
                let d = decimal(*id);
                "dangling inode ".to_owned().concat(d.as_str())
            },
            FsError::BlockNotFound(h) => {
                let x = crate::blockstore::hash_hex(h);
                "block not found: ".to_owned().concat(x.as_str())
            },
            FsError::IntegrityFailed { expected, actual } => {
                let e = crate::blockstore::hash_hex(expected);
                let a = crate::blockstore::hash_hex(actual);
                "integrity check failed: block ".to_owned().concat(e.as_str()).concat(
                    " hashed to ",
                ).concat(a.as_str())
            },
        }
    }
}

/// The components of a path: what stands between slashes of either kind.
pub open spec fn components(path: Seq<char>) -> Seq<Seq<char>> {
    runs(path, seq!['/', '\\'])
}

pub fn split(path: &str) -> (v: Vec<String>)
    ensures
        texts(v@) == components(path@),
{
    let seps = ['/', '\\'];
    assert(seps@ =~= seq!['/', '\\']);
    split_runs(path, seps.as_slice())
}

/// An inode id as a key whose byte order is the order of the ids.
pub fn id_key(id: u64) -> (k: [u8; 8])
    ensures
        k@ == crate::codec::be64(id),
{
    crate::codec::u64_be(id)
}

/// The chunks of a file's content: all but the last are of the block size.
pub open spec fn chunks(data: Seq<u8>) -> Seq<Seq<u8>> {
    Seq::new(
        ((data.len() + BLOCK_SIZE - 1) / (BLOCK_SIZE as int)) as nat,
        |i: int|
            data.subrange(
                i * BLOCK_SIZE,
                if (i + 1) * BLOCK_SIZE <= data.len() {
                    (i + 1) * BLOCK_SIZE
                } else {
                    data.len() as int
                },
            ),
    )
}

/// The blocks that content is stored as; none for a small file.
pub open spec fn blocks_of(data: Seq<u8>) -> Seq<Seq<u8>> {
    if data.len() <= INLINE_MAX {
        Seq::empty()
    } else {
        chunks(data)
    }
}

/// The content that is stored in the inode itself.
pub open spec fn inline_of(data: Seq<u8>) -> Seq<u8> {
    if data.len() <= INLINE_MAX {
        data
    } else {
        Seq::empty()
    }
}

/// The digests of the blocks.
pub open spec fn digests(blocks: Seq<Seq<u8>>) -> Seq<Seq<u8>> {
    Seq::new(blocks.len(), |i: int| digest(blocks[i]))
}

/// The inode of a file with this content.
pub open spec fn file_inode(data: Seq<u8>, now: i64) -> InodeModel {
    InodeModel::File {
        size: data.len() as u64,
        blocks: digests(blocks_of(data)),
        data: inline_of(data),
        mtime: now,
        mode: FILE_MODE,
    }
}

/// The log bytes that content needs at most.
pub open spec fn log_need(data: Seq<u8>) -> nat {
    if data.len() <= INLINE_MAX {
        0
    } else {
        data.len() + 4 * chunks(data).len()
    }
}

/// A file's content, cut into blocks that carry their addresses.
pub struct FileData {
    size: usize,
    inline: Vec<u8>,
    blocks: Vec<Block>,
    data: Ghost<Seq<u8>>,
}

impl View for FileData {
    type V = Seq<u8>;

    closed spec fn view(&self) -> Seq<u8> {
        self.data@
    }
}

impl FileData {
    #[verifier::type_invariant]
    spec fn prepared(&self) -> bool {
        &&& self.size == self.data@.len()
        &&& self.inline@ == inline_of(self.data@)
        &&& contents(self.blocks@) == blocks_of(self.data@)
    }

    /// Prepares content for [`Filesystem::write_file`].
    pub fn new(data: &[u8]) -> (d: FileData)
        ensures
            d@ == data@,
    {
        let ghost all = data@;
        let size = data.len();
        if size <= INLINE_MAX {
            let none: Vec<Block> = Vec::new();
            assert(contents(none@) =~= blocks_of(all));
            return FileData {
                size,
                inline: vstd::slice::slice_to_vec(data),
                blocks: none,
                data: Ghost(all),
            };
        }
        let mut blocks: Vec<Block> = Vec::new();
        let mut at: usize = 0;
        let ghost want = chunks(all);
        while at < size
            invariant
                size == all.len(),
                all == data@,
                want == chunks(all),
                at <= size,
                at == blocks@.len() * BLOCK_SIZE || (at == size && blocks@.len() == want.len()),
                blocks@.len() <= want.len(),
                contents(blocks@) == want.take(blocks@.len() as int),
            decreases size - at,
        {
            let n: usize = if size - at <= BLOCK_SIZE {
                size - at
            } else {
                BLOCK_SIZE
            };
            let piece = vstd::slice::slice_subrange(data, at, at + n);
            let ghost i = blocks@.len() as int;
            let ghost before = blocks@;
            blocks.push(Block::new(piece));
            proof {
                assert(i < want.len());
                assert(want[i] =~= all.subrange(at as int, at + n));
                assert(contents(blocks@) =~= contents(before).push(want[i]));
                assert(want.take(i + 1) =~= want.take(i).push(want[i]));
            }
            at = at + n;
        }
        proof {
            assert(blocks@.len() == want.len());
            assert(want.take(blocks@.len() as int) =~= want);
        }
        FileData { size, inline: Vec::new(), blocks, data: Ghost(all) }
    }

    /// The length of the content.
    pub fn len(&self) -> (n: usize)
        ensures
            n == self@.len(),
    {
        proof {
            use_type_invariant(self);
        }
        self.size
    }

    /// The blocks that the content is stored as.
    pub fn blocks(&self) -> (b: &Vec<Block>)
        ensures
            contents(b@) == blocks_of(self@),
    {
        proof {
            use_type_invariant(self);
        }
        &self.blocks
    }
}

/// The state of a [`Filesystem`].
#[verifier::ext_equal]
pub struct FsModel {
    pub inodes: Map<u64, InodeModel>,
    pub state: SuperBlock,
    pub snapshots: Map<Seq<char>, SuperBlock>,
    pub blocks: BlocksModel,
}

impl FsModel {
    /// A fresh filesystem: inode 0 is the empty root directory.
    pub open spec fn fresh(now: i64, blocks: BlocksModel) -> FsModel {
        FsModel {
            inodes: Map::empty().insert(0, empty_dir(now)),
            state: SuperBlock { root: 0, next_inode: 1, txg: 0 },
            snapshots: Map::empty(),
            blocks,
        }
    }

    pub open spec fn tree(self) -> Tree {
        Tree { inodes: self.inodes, next: self.state.next_inode as nat }
    }

    /// The table is sound, and the live root and every snapshot's root are ids
    /// that were given out.
    pub open spec fn sound(self) -> bool {
        &&& self.tree().sound()
        &&& self.state.root < self.state.next_inode
        &&& forall|n: Seq<char>| #[trigger]
            self.snapshots.contains_key(n) ==> self.snapshots[n].root < self.state.next_inode
    }

    /// No directory entry leads to no inode, and the live root and every
    /// snapshot's root are directories.
    pub open spec fn whole(self) -> bool {
        &&& self.tree().whole()
        &&& self.inodes.contains_key(self.state.root)
        &&& self.inodes[self.state.root] is Dir
        &&& forall|n: Seq<char>| #[trigger]
            self.snapshots.contains_key(n) ==> self.inodes.contains_key(self.snapshots[n].root)
                && self.inodes[self.snapshots[n].root] is Dir
    }

    /// There are `n` more inode ids, and one more transaction number.
    pub open spec fn ids_left(self, n: nat) -> bool {
        &&& self.state.next_inode + n <= u64::MAX
        &&& self.state.txg < u64::MAX
    }

    /// The log and its counts have room for the content.
    pub open spec fn can_store(self, data: Seq<u8>) -> bool {
        &&& self.blocks.log_len + log_need(data) <= u64::MAX
        &&& self.blocks.framed() + log_need(data) <= u64::MAX
    }

    /// The id that a path leads to.
    pub open spec fn lookup(self, path: Seq<char>) -> Result<u64, Fault> {
        resolve(self.inodes, self.state.root, components(path))
    }

    /// The inode under an id.
    pub open spec fn inode(self, id: u64) -> Result<InodeModel, Fault> {
        if self.inodes.contains_key(id) {
            Ok(self.inodes[id])
        } else {
            Err(Fault::DanglingInode(id))
        }
    }

    /// The inode that a path leads to.
    pub open spec fn inode_at(self, path: Seq<char>) -> Result<InodeModel, Fault> {
        match self.lookup(path) {
            Ok(id) => self.inode(id),
            Err(e) => Err(e),
        }
    }

    pub open spec fn with_tree(self, t: Tree) -> FsModel {
        FsModel {
            inodes: t.inodes,
            state: SuperBlock { next_inode: t.next as u64, ..self.state },
            ..self
        }
    }

    /// `root` published as the live root, in a new transaction.
    pub open spec fn committed(self, root: u64) -> FsModel {
        FsModel { state: SuperBlock { root, txg: (self.state.txg + 1) as u64, ..self.state }, ..self }
    }

    /// The path `comps` set to `leaf`, or taken out, and the result published;
    /// where that fails the live root stays.
    pub open spec fn grafted(self, comps: Seq<Seq<char>>, leaf: Option<u64>, now: i64) -> (
        FsModel,
        Result<(), Fault>,
    ) {
        let (t, r) = graft(self.tree(), self.state.root, comps, leaf, now);
        match r {
            Ok(root) => (self.with_tree(t).committed(root), Ok(())),
            Err(e) => (self.with_tree(t), Err(e)),
        }
    }

    /// A new inode put under a path.
    pub open spec fn placed(self, path: Seq<char>, inode: InodeModel, now: i64) -> (
        FsModel,
        Result<(), Fault>,
    ) {
        self.with_tree(self.tree().put(inode)).grafted(
            components(path),
            Some(self.state.next_inode),
            now,
        )
    }

    /// A file written; its blocks are stored before anything else happens.
    pub open spec fn written(self, path: Seq<char>, data: Seq<u8>, now: i64) -> (
        FsModel,
        Result<(), Fault>,
    ) {
        if components(path).len() == 0 {
            (self, Err(Fault::WriteRoot))
        } else {
            FsModel {
                blocks: self.blocks.stored_all(blocks_of(data), blocks_of(data).len() as int),
                ..self
            }.placed(path, file_inode(data, now), now)
        }
    }

    /// A directory made, in place of what was there.
    pub open spec fn made_dir(self, path: Seq<char>, now: i64) -> (FsModel, Result<(), Fault>) {
        if components(path).len() == 0 {
            (self, Ok(()))
        } else {
            self.placed(path, empty_dir(now), now)
        }
    }

    /// A path taken out.
    pub open spec fn removed(self, path: Seq<char>, now: i64) -> (FsModel, Result<(), Fault>) {
        if components(path).len() == 0 {
            (self, Err(Fault::RemoveRoot))
        } else {
            self.grafted(components(path), None, now)
        }
    }

    /// What `from` leads to put under `to`, then `from` taken out.
    pub open spec fn renamed(self, from: Seq<char>, to: Seq<char>, now: i64) -> (
        FsModel,
        Result<(), Fault>,
    ) {
        if components(from).len() == 0 || components(to).len() == 0 {
            (self, Err(Fault::RenameRoot))
        } else {
            match self.lookup(from) {
                Err(e) => (self, Err(e)),
                Ok(id) => {
                    let (t1, r1) = graft(
                        self.tree(),
                        self.state.root,
                        components(to),
                        Some(id),
                        now,
                    );
                    match r1 {
                        Err(e) => (self.with_tree(t1), Err(e)),
                        Ok(root1) => {
                            let (t2, r2) = graft(t1, root1, components(from), None, now);
                            match r2 {
                                Err(e) => (self.with_tree(t2), Err(e)),
                                Ok(root2) => (self.with_tree(t2).committed(root2), Ok(())),
                            }
                        },
                    }
                },
            }
        }
    }

    /// The live filesystem back at a snapshot's root. Ids are never reused.
    pub open spec fn rolled_back(self, name: Seq<char>) -> (FsModel, Result<(), Fault>) {
        if self.snapshots.contains_key(name) {
            let snap = self.snapshots[name];
            let kept = SuperBlock {
                next_inode: if self.state.next_inode >= snap.next_inode {
                    self.state.next_inode
                } else {
                    snap.next_inode
                },
                ..self.state
            };
            (FsModel { state: kept, ..self }.committed(snap.root), Ok(()))
        } else {
            (self, Err(Fault::NoSuchSnapshot(name)))
        }
    }
}

/// What the shared inodes hold.
pub open spec fn table(m: Map<u64, Arc<Inode>>) -> Map<u64, InodeModel> {
    Map::new(|id: u64| m.contains_key(id), |id: u64| (*m[id])@)
}

/// A lightweight copy-on-write, content-addressed filesystem.
///
/// Design goals: end-to-end blake3 checksums, copy-on-write with an atomic root
/// swap per transaction, O(1) snapshots, transparent block-level dedup, a
/// strict-capped frequency-aware RAM block cache, and an immutable-inode cache.
pub struct Filesystem {
    blocks: BlockStore,
    inodes: SortedMap<u64, Arc<Inode>>,
    snapshots: SortedMap<String, SuperBlock>,
    state: SuperBlock,
    /// Inodes are immutable once written (copy-on-write allocates a new id per
    /// change), so caching them by id never goes stale.
    inode_cache: InodeCache,
}

impl View for Filesystem {
    type V = FsModel;

    closed spec fn view(&self) -> FsModel {
        FsModel {
            inodes: table(self.inodes@),
            state: self.state,
            snapshots: self.snapshots@,
            blocks: self.blocks@,
        }
    }
}

/// Every cached inode is what the table holds under its id.
pub open spec fn cache_current(cached: Seq<(u64, InodeModel)>, inodes: Map<u64, InodeModel>) -> bool {
    forall|i: int|
        0 <= i < cached.len() ==> inodes.contains_key((#[trigger] cached[i]).0)
            && inodes[cached[i].0] == cached[i].1
}

proof fn lemma_cache_push(
    cached: Seq<(u64, InodeModel)>,
    inodes: Map<u64, InodeModel>,
    id: u64,
    capacity: nat,
)
    requires
        cache_current(cached, inodes),
        inodes.contains_key(id),
    ensures
        cache_current(without_key(cached, id).push((id, inodes[id])), inodes),
        cache_current(trimmed(without_key(cached, id).push((id, inodes[id])), capacity), inodes),
{
    let w = without_key(cached, id);
    assert forall|i: int| 0 <= i < w.len() implies inodes.contains_key((#[trigger] w[i]).0)
        && inodes[w[i].0] == w[i].1 by {
        if has_key(cached, id) && i >= slot_of(cached, id) {
            assert(w[i] == cached[i + 1]);
        } else {
            assert(w[i] == cached[i]);
        }
    }
}

/// A new inode in the table and in the cache, also in place of another one.
proof fn lemma_cache_put(
    cached: Seq<(u64, InodeModel)>,
    inodes: Map<u64, InodeModel>,
    id: u64,
    inode: InodeModel,
    capacity: nat,
)
    requires
        cache_current(cached, inodes),
        distinct_keys(cached),
    ensures
        cache_current(
            trimmed(without_key(cached, id).push((id, inode)), capacity),
            inodes.insert(id, inode),
        ),
{
    let w = without_key(cached, id);
    assert forall|i: int| 0 <= i < w.len() implies (#[trigger] w[i]).0 != id
        && inodes.contains_key(w[i].0) && inodes[w[i].0] == w[i].1 by {
        if has_key(cached, id) {
            let k = slot_of(cached, id);
            assert(cached[k].0 == id);
            if i >= k {
                assert(w[i] == cached[i + 1]);
            } else {
                assert(w[i] == cached[i]);
            }
        } else {
            assert(w[i] == cached[i]);
        }
    }
}

/// The cache holds no id twice, whatever is moved to its back.
proof fn lemma_cache_distinct(
    cached: Seq<(u64, InodeModel)>,
    id: u64,
    inode: InodeModel,
    capacity: nat,
)
    requires
        distinct_keys(cached),
    ensures
        distinct_keys(without_key(cached, id).push((id, inode))),
        distinct_keys(trimmed(without_key(cached, id).push((id, inode)), capacity)),
{
    let w = without_key(cached, id);
    let k = slot_of(cached, id);
    assert forall|i: int| 0 <= i < w.len() implies (#[trigger] w[i]).0 != id by {
        if has_key(cached, id) {
            assert(cached[k].0 == id);
            if i >= k {
                assert(w[i] == cached[i + 1]);
            } else {
                assert(w[i] == cached[i]);
            }
        }
    }
    assert(distinct_keys(w)) by {
        assert forall|i: int, j: int|
            0 <= i < w.len() && 0 <= j < w.len() && i != j implies (#[trigger] w[i]).0 != (
        #[trigger] w[j]).0 by {
            if has_key(cached, id) {
                let a = if i >= k {
                    i + 1
                } else {
                    i
                };
                let b = if j >= k {
                    j + 1
                } else {
                    j
                };
                assert(cached[a].0 != cached[b].0);
            }
        }
    }
}

impl Filesystem {
    pub closed spec fn wf(&self) -> bool {
        &&& self.blocks.wf()
        &&& listed(self@.inodes)
        &&& cache_current(cached_inodes(self.inode_cache), self@.inodes)
        &&& distinct_keys(cached_inodes(self.inode_cache))
        &&& cached_inodes(self.inode_cache).len() <= inode_cache_capacity(self.inode_cache)
    }

    /// What [`Filesystem::wf`] says of the state.
    pub proof fn lemma_wf(&self)
        requires
            self.wf(),
        ensures
            listed(self@.inodes),
            self@.inodes.dom().finite(),
            self@.blocks.cache_honest(),
            self@.blocks.cache_indexed(),
            ascending::<crate::blockstore::Hash, Extent>(self@.blocks.entries()),
            map_of(self@.blocks.entries()) == self@.blocks.index,
            self@.blocks.cache.resident() <= self@.blocks.cache.cap,
            self@.blocks.framed() <= u64::MAX,
    {
        self.blocks.lemma_wf();
        self.inodes.lemma_finite();
        assert(self@.inodes.dom() =~= self.inodes@.dom());
    }

    /// The inode under `id`.
    fn read_inode(&mut self, id: u64) -> (r: Result<Arc<Inode>, FsError>)
        requires
            old(self).wf(),
        ensures
            final(self).wf(),
            final(self)@ == old(self)@,
            match r {
                Ok(inode) => old(self)@.inode(id) == Ok::<InodeModel, Fault>((*inode)@),
                Err(e) => old(self)@.inode(id) == Err::<InodeModel, Fault>(e@),
            },
    {
        let ghost cached = cached_inodes(self.inode_cache);
        if let Some(inode) = self.inode_cache.get(id) {
            proof {
                let _ = cached[slot_of(cached, id)];
                let capacity = inode_cache_capacity(self.inode_cache);
                lemma_cache_push(cached, self@.inodes, id, capacity);
                lemma_cache_distinct(cached, id, self@.inodes[id], capacity);
                assert(without_key(cached, id).len() < cached.len());
            }
            return Ok(inode);
        }
        match self.inodes.get(&id) {
            Some(inode) => {
                let inode = inode.clone();
                self.inode_cache.insert(id, inode.clone());
                proof {
                    let capacity = inode_cache_capacity(self.inode_cache);
                    assert(self@.inodes[id] == (*inode)@);
                    lemma_cache_push(cached, self@.inodes, id, capacity);
                    lemma_cache_distinct(cached, id, (*inode)@, capacity);
                }
                Ok(inode)
            },
            None => Err(FsError::DanglingInode(id)),
        }
    }

    /// Adds an inode under the next id.
    fn put_inode(&mut self, inode: Inode) -> (id: u64)
        requires
            old(self).wf(),
            old(self)@.state.next_inode < u64::MAX,
        ensures
            final(self).wf(),
            id == old(self)@.state.next_inode,
            final(self)@ == old(self)@.with_tree(old(self)@.tree().put(inode@)),
    {
        let id = next_id(&mut self.state);
        let ghost m = inode@;
        match &inode {
            Inode::Dir { entries, .. } => {
                let _ = entries.len();
                proof {
                    lemma_entries_unique::<String, u64>(entries.entries(), dir_entries(entries@));
                }
            },
            Inode::File { .. } => {},
        }
        let inode = Arc::new(inode);
        let ghost cached = cached_inodes(self.inode_cache);
        self.inodes.insert(id, inode.clone());
        self.inode_cache.insert(id, inode);
        proof {
            let capacity = inode_cache_capacity(self.inode_cache);
            assert(self@.inodes =~= old(self)@.inodes.insert(id, m));
            lemma_cache_put(cached, old(self)@.inodes, id, m, capacity);
            lemma_cache_distinct(cached, id, m, capacity);
            assert(self@ =~= old(self)@.with_tree(old(self)@.tree().put(m)));
            assert(self@.tree() == old(self)@.tree().put(m));
        }
        id
    }

    /// Publishes `root` as the live root.
    fn commit(&mut self, root: u64)
        requires
            old(self).wf(),
            old(self)@.state.txg < u64::MAX,
        ensures
            final(self).wf(),
            final(self)@ == old(self)@.committed(root),
    {
        self.state.root = root;
        self.state.txg = self.state.txg + 1;
        assert(self@ =~= old(self)@.committed(root));
        assert(self@.tree() == old(self)@.tree());
    }

    /// The id that a path leads to.
    fn resolve(&mut self, path: &str) -> (r: Result<u64, FsError>)
        requires
            old(self).wf(),
        ensures
            final(self).wf(),
            final(self)@ == old(self)@,
            match r {
                Ok(id) => old(self)@.lookup(path@) == Ok::<u64, Fault>(id),
                Err(e) => old(self)@.lookup(path@) == Err::<u64, Fault>(e@),
            },
    {
        let comps = split(path);
        let ghost all = components(path@);
        let mut id: u64 = self.state.root;
        let mut i: usize = 0;
        assert(all.skip(0) =~= all);
        while i < comps.len()
            invariant
                self.wf(),
                self@ == old(self)@,
                all == components(path@),
                texts(comps@) == all,
                i <= comps@.len(),
                self@.lookup(path@) == resolve(self@.inodes, id, all.skip(i as int)),
            decreases comps@.len() - i,
        {
            proof {
                assert(all[i as int] == comps@[i as int]@);
                assert(all.skip(i as int).drop_first() =~= all.skip(i + 1));
            }
            match self.read_inode(id) {
                Err(e) => {
                    return Err(e);
                },
                Ok(inode) => match &*inode {
                    Inode::Dir { entries, .. } => match entries.get(&comps[i]) {
                        Some(child) => {
                            id = *child;
                        },
                        None => {
                            return Err(FsError::NoSuchComponent(comps[i].clone()));
                        },
                    },
                    Inode::File { .. } => {
                        return Err(FsError::NotADirectory(comps[i].clone()));
                    },
                },
            }
            i = i + 1;
        }
        assert(all.skip(i as int) =~= Seq::empty());
        Ok(id)
    }
}

impl Filesystem {
    /// Copy-on-write rebuild of the directory chain along the components from
    /// `at` on, returning the id of the new (sub)tree root. `leaf = Some(id)`
    /// sets the final component to `id` (creating intermediate dirs as needed);
    /// `None` removes it.
    fn rebuild(
        &mut self,
        dir: u64,
        comps: &Vec<String>,
        at: usize,
        leaf: Option<u64>,
        now: i64,
    ) -> (r: Result<u64, FsError>)
        requires
            old(self).wf(),
            at < comps@.len(),
            old(self)@.state.next_inode + 2 * (comps@.len() - at) <= u64::MAX,
        ensures
            final(self).wf(),
            ({
                let (t, g) = graft(
                    old(self)@.tree(),
                    dir,
                    texts(comps@).skip(at as int),
                    leaf,
                    now,
                );
                &&& final(self)@ == old(self)@.with_tree(t)
                &&& match r {
                    Ok(id) => g == Ok::<u64, Fault>(id),
                    Err(e) => g == Err::<u64, Fault>(e@),
                }
            }),
        decreases comps@.len() - at,
    {
        let ghost t = self@.tree();
        let ghost path = texts(comps@).skip(at as int);
        proof {
            assert(path[0] == comps@[at as int]@);
            assert(self@.with_tree(t) =~= self@);
            lemma_graft_ids(t, dir, path, leaf, now);
        }
        let inode = match self.read_inode(dir) {
            Ok(inode) => inode,
            Err(e) => {
                return Err(e);
            },
        };
        let mut entries = match &*inode {
            Inode::Dir { entries, .. } => copy_entries(entries),
            Inode::File { .. } => {
                return Err(FsError::TraversesFile);
            },
        };
        let ghost old_entries = entries@;
        assert(t.inodes[dir]->entries == old_entries);
        let name = comps[at].clone();
        if at == comps.len() - 1 {
            match leaf {
                Some(id) => {
                    entries.insert(name, id);
                },
                None => {
                    if entries.remove(&name).is_none() {
                        return Err(FsError::NoSuchEntry(name));
                    }
                },
            }
        } else {
            let child: u64 = match entries.get(&name) {
                Some(id) => *id,
                None => self.put_inode(Inode::Dir { entries: SortedMap::new(), mtime: now }),
            };
            let ghost t1 = self@.tree();
            let ghost below = texts(comps@).skip(at + 1);
            proof {
                assert(path.drop_first() =~= below);
                lemma_graft_ids(t1, child, below, leaf, now);
            }
            match self.rebuild(child, comps, at + 1, leaf, now) {
                Ok(new_child) => {
                    entries.insert(name, new_child);
                },
                Err(e) => {
                    return Err(e);
                },
            }
        }
        Ok(self.put_inode(Inode::Dir { entries, mtime: now }))
    }
}

impl Filesystem {
    /// Whether there are `n` more inode ids, and one more transaction number.
    pub fn ids_left(&self, n: u64) -> (r: bool)
        ensures
            r == self@.ids_left(n as nat),
    {
        n <= u64::MAX - self.state.next_inode && self.state.txg < u64::MAX
    }

    /// Whether the log and its counts have room for the content.
    pub fn can_store(&self, data: &FileData) -> (r: bool)
        requires
            self.wf(),
        ensures
            r == self@.can_store(data@),
    {
        proof {
            use_type_invariant(data);
            self.blocks.lemma_wf();
        }
        if data.size <= INLINE_MAX {
            return true;
        }
        let need: u128 = data.size as u128 + 4 * (data.blocks.len() as u128);
        assert(data.blocks@.len() == contents(data.blocks@).len());
        need <= u64::MAX as u128 && self.blocks.has_room(need as u64)
    }

    /// Puts an inode under a path.
    fn place(&mut self, comps: &Vec<String>, inode: Inode, now: i64) -> (r: Result<(), FsError>)
        requires
            old(self).wf(),
            comps@.len() > 0,
            old(self)@.ids_left(2 * comps@.len() + 1),
            inode@ is Dir ==> inode@->entries == Map::<Seq<char>, u64>::empty(),
        ensures
            final(self).wf(),
            ({
                let (m, g) = old(self)@.with_tree(old(self)@.tree().put(inode@)).grafted(
                    texts(comps@),
                    Some(old(self)@.state.next_inode),
                    now,
                );
                final(self)@ == m && same_outcome(r, g)
            }),
    {
        let id = self.put_inode(inode);
        self.regraft(comps, Some(id), now)
    }

    /// Sets a path or takes it out, and publishes the result.
    fn regraft(&mut self, comps: &Vec<String>, leaf: Option<u64>, now: i64) -> (r: Result<(), FsError>)
        requires
            old(self).wf(),
            comps@.len() > 0,
            old(self)@.ids_left(2 * comps@.len()),
        ensures
            final(self).wf(),
            final(self)@ == old(self)@.grafted(texts(comps@), leaf, now).0,
            same_outcome(r, old(self)@.grafted(texts(comps@), leaf, now).1),
    {
        proof {
            assert(texts(comps@).skip(0) =~= texts(comps@));
            lemma_graft_ids(self@.tree(), self@.state.root, texts(comps@), leaf, now);
        }
        match self.rebuild(self.state.root, comps, 0, leaf, now) {
            Ok(root) => {
                self.commit(root);
                Ok(())
            },
            Err(e) => Err(e),
        }
    }

    /// Write (creating or overwriting) a file, auto-creating parent dirs. What
    /// [`Filesystem::log_tail`] says has to be in the log before.
    pub fn write_file(&mut self, path: &str, data: &FileData, now: i64) -> (r: Result<(), FsError>)
        requires
            old(self).wf(),
            old(self)@.can_store(data@),
            old(self)@.ids_left(2 * components(path@).len() + 1),
        ensures
            final(self).wf(),
            final(self)@ == old(self)@.written(path@, data@, now).0,
            same_outcome(r, old(self)@.written(path@, data@, now).1),
    {
        let comps = split(path);
        assert(texts(comps@).len() == comps@.len());
        if comps.len() == 0 {
            return Err(FsError::WriteRoot);
        }
        let blocks = self.store_blocks(data);
        proof {
            use_type_invariant(data);
            assert(data.size as u64 == data@.len());
        }
        let inode = Inode::File {
            size: data.size as u64,
            blocks,
            inline: vstd::slice::slice_to_vec(data.inline.as_slice()),
            mtime: now,
            mode: FILE_MODE,
        };
        assert(inode@ =~= file_inode(data@, now));
        self.place(&comps, inode, now)
    }

    /// Stores the blocks of the content.
    fn store_blocks(&mut self, data: &FileData) -> (v: Vec<crate::blockstore::Hash>)
        requires
            old(self).wf(),
            old(self)@.can_store(data@),
        ensures
            final(self).wf(),
            addresses(v@) == digests(blocks_of(data@)),
            final(self)@ == (FsModel {
                blocks: old(self)@.blocks.stored_all(
                    blocks_of(data@),
                    blocks_of(data@).len() as int,
                ),
                ..old(self)@
            }),
    {
        let ghost want = blocks_of(data@);
        proof {
            use_type_invariant(data);
            lemma_chunks(data@);
        }
        let mut v: Vec<crate::blockstore::Hash> = Vec::new();
        let mut i: usize = 0;
        assert(addresses(v@) =~= digests(want).take(0));
        while i < data.blocks.len()
            invariant
                self.wf(),
                want == blocks_of(data@),
                contents(data.blocks@) == want,
                i <= data.blocks@.len(),
                forall|j: int| 0 <= j < want.len() ==> 0 < (#[trigger] want[j]).len() <= BLOCK_SIZE,
                want.len() > 0 ==> total(want, want.len() as int) + 4 * want.len() == log_need(
                    data@,
                ),
                old(self)@.can_store(data@),
                self@ == (FsModel {
                    blocks: old(self)@.blocks.stored_all(want, i as int),
                    ..old(self)@
                }),
                self@.blocks.log_len <= old(self)@.blocks.log_len + total(want, i as int) + 4 * i,
                self@.blocks.framed() <= old(self)@.blocks.framed() + total(want, i as int) + 4 * i,
                addresses(v@) == digests(want).take(i as int),
            decreases data.blocks@.len() - i,
        {
            proof {
                assert(want[i as int] == data.blocks@[i as int]@);
                lemma_total_monotone(want, i + 1, want.len() as int);
            }
            let ghost before = v@;
            self.blocks.put(&data.blocks[i]);
            v.push(data.blocks[i].hash());
            proof {
                assert(self@ =~= (FsModel {
                    blocks: old(self)@.blocks.stored_all(want, i + 1),
                    ..old(self)@
                }));
                assert(self@.tree() == old(self)@.tree());
                assert(addresses(v@) =~= addresses(before).push(digest(want[i as int])));
                assert(digests(want).take(i + 1) =~= digests(want).take(i as int).push(
                    digest(want[i as int]),
                ));
            }
            i = i + 1;
        }
        assert(digests(want).take(i as int) =~= digests(want));
        v
    }

    /// What writing the content appends to the log, and where.
    pub fn log_tail(&self, data: &FileData) -> (r: (u64, Vec<u8>))
        requires
            self.wf(),
        ensures
            r.0 == self@.blocks.log_len,
            r.1@ == self@.blocks.appended_all(blocks_of(data@), blocks_of(data@).len() as int),
    {
        proof {
            use_type_invariant(data);
            lemma_chunks(data@);
            assert(contents(data.blocks@).len() == data.blocks@.len());
            assert forall|i: int| 0 <= i < data.blocks@.len() implies (#[trigger] data.blocks@[i])@.len()
                <= u32::MAX by {
                assert(contents(data.blocks@)[i] == data.blocks@[i]@);
                assert(blocks_of(data@)[i] == chunks(data@)[i]);
            }
        }
        self.blocks.log_tail(&data.blocks)
    }

    /// Makes a directory, auto-creating parent dirs; what stood under the path
    /// is gone from it.
    pub fn mkdir(&mut self, path: &str, now: i64) -> (r: Result<(), FsError>)
        requires
            old(self).wf(),
            old(self)@.ids_left(2 * components(path@).len() + 1),
        ensures
            final(self).wf(),
            final(self)@ == old(self)@.made_dir(path@, now).0,
            same_outcome(r, old(self)@.made_dir(path@, now).1),
    {
        let comps = split(path);
        assert(texts(comps@).len() == comps@.len());
        if comps.len() == 0 {
            return Ok(());
        }
        let inode = Inode::Dir { entries: SortedMap::new(), mtime: now };
        assert(inode@ =~= empty_dir(now));
        self.place(&comps, inode, now)
    }

    /// Remove a file or (empty or non-empty) directory entry.
    pub fn remove(&mut self, path: &str, now: i64) -> (r: Result<(), FsError>)
        requires
            old(self).wf(),
            old(self)@.ids_left(2 * components(path@).len()),
        ensures
            final(self).wf(),
            final(self)@ == old(self)@.removed(path@, now).0,
            same_outcome(r, old(self)@.removed(path@, now).1),
    {
        let comps = split(path);
        assert(texts(comps@).len() == comps@.len());
        if comps.len() == 0 {
            return Err(FsError::RemoveRoot);
        }
        self.regraft(&comps, None, now)
    }

    /// Puts what `from` leads to under `to` and takes `from` out, in one
    /// transaction.
    pub fn rename(&mut self, from: &str, to: &str, now: i64) -> (r: Result<(), FsError>)
        requires
            old(self).wf(),
            old(self)@.ids_left(2 * (components(from@).len() + components(to@).len())),
        ensures
            final(self).wf(),
            final(self)@ == old(self)@.renamed(from@, to@, now).0,
            same_outcome(r, old(self)@.renamed(from@, to@, now).1),
    {
        let from_comps = split(from);
        let to_comps = split(to);
        proof {
            assert(texts(from_comps@).len() == from_comps@.len());
            assert(texts(to_comps@).len() == to_comps@.len());
        }
        if from_comps.len() == 0 || to_comps.len() == 0 {
            return Err(FsError::RenameRoot);
        }
        let id: u64 = match self.resolve(from) {
            Ok(id) => id,
            Err(e) => {
                return Err(e);
            },
        };
        let ghost m = self@;
        proof {
            assert(texts(to_comps@).skip(0) =~= texts(to_comps@));
            assert(texts(from_comps@).skip(0) =~= texts(from_comps@));
            lemma_graft_ids(m.tree(), m.state.root, texts(to_comps@), Some(id), now);
        }
        let r1: u64 = match self.rebuild(self.state.root, &to_comps, 0, Some(id), now) {
            Ok(r1) => r1,
            Err(e) => {
                return Err(e);
            },
        };
        let ghost t1 = self@.tree();
        proof {
            lemma_graft_ids(t1, r1, texts(from_comps@), None, now);
        }
        match self.rebuild(r1, &from_comps, 0, None, now) {
            Ok(r2) => {
                self.commit(r2);
                Ok(())
            },
            Err(e) => Err(e),
        }
    }

    /// The metadata of a path.
    pub fn stat(&mut self, path: &str) -> (r: Result<Stat, FsError>)
        requires
            old(self).wf(),
        ensures
            final(self).wf(),
            final(self)@ == old(self)@,
            match r {
                Ok(st) => old(self)@.inode_at(path@) is Ok && stat_of(
                    st,
                    old(self)@.inode_at(path@)->Ok_0,
                ),
                Err(e) => old(self)@.inode_at(path@) == Err::<InodeModel, Fault>(e@),
            },
    {
        let id: u64 = match self.resolve(path) {
            Ok(id) => id,
            Err(e) => {
                return Err(e);
            },
        };
        match self.read_inode(id) {
            Err(e) => Err(e),
            Ok(inode) => match &*inode {
                Inode::File { size, blocks, mtime, .. } => {
                    Ok(
                        Stat {
                            kind: "file".to_owned(),
                            size: *size,
                            mtime: *mtime,
                            blocks: blocks.len(),
                            entries: 0,
                        },
                    )
                },
                Inode::Dir { entries, mtime } => {
                    let n: usize = entries.len();
                    proof {
                        lemma_entries_unique::<String, u64>(
                            entries.entries(),
                            dir_entries(entries@),
                        );
                    }
                    Ok(
                        Stat {
                            kind: "dir".to_owned(),
                            size: 0,
                            mtime: *mtime,
                            blocks: 0,
                            entries: n,
                        },
                    )
                },
            },
        }
    }

    /// Whether a path leads somewhere.
    pub fn path_exists(&mut self, path: &str) -> (r: bool)
        requires
            old(self).wf(),
        ensures
            final(self).wf(),
            final(self)@ == old(self)@,
            r == (old(self)@.lookup(path@) is Ok),
    {
        self.resolve(path).is_ok()
    }
}

/// The outcome of an operation that gives nothing back.
pub open spec fn same_outcome(r: Result<(), FsError>, g: Result<(), Fault>) -> bool {
    match r {
        Ok(_) => g is Ok,
        Err(e) => g == Err::<(), Fault>(e@),
    }
}

/// `st` is the metadata of `inode`.
pub open spec fn stat_of(st: Stat, inode: InodeModel) -> bool {
    &&& st.kind@ == kind_text(inode)
    &&& match inode {
        InodeModel::File { size, blocks, mtime, .. } => {
            &&& st.size == size
            &&& st.mtime == mtime
            &&& st.blocks == blocks.len()
            &&& st.entries == 0
        },
        InodeModel::Dir { entries, mtime } => {
            &&& st.size == 0
            &&& st.mtime == mtime
            &&& st.blocks == 0
            &&& st.entries == dir_entries(entries).len()
        },
    }
}

/// The bytes of the first `n` blocks together.
pub open spec fn total(blocks: Seq<Seq<u8>>, n: int) -> nat
    decreases n,
{
    if n <= 0 {
        0
    } else {
        total(blocks, n - 1) + blocks[n - 1].len()
    }
}

proof fn lemma_total_monotone(blocks: Seq<Seq<u8>>, a: int, b: int)
    requires
        0 <= a <= b,
    ensures
        total(blocks, a) <= total(blocks, b),
    decreases b - a,
{
    if a < b {
        lemma_total_monotone(blocks, a, b - 1);
    }
}

proof fn lemma_chunks_total(data: Seq<u8>, n: int)
    requires
        0 <= n <= chunks(data).len(),
    ensures
        total(chunks(data), n) == if n * BLOCK_SIZE <= data.len() {
            n * BLOCK_SIZE
        } else {
            data.len() as int
        },
    decreases n,
{
    if n > 0 {
        lemma_chunks_total(data, n - 1);
    }
}

/// No chunk is empty or larger than a block, and together they have the
/// length of the content.
proof fn lemma_chunks(data: Seq<u8>)
    ensures
        forall|i: int|
            0 <= i < chunks(data).len() ==> 0 < (#[trigger] chunks(data)[i]).len() <= BLOCK_SIZE,
        total(chunks(data), chunks(data).len() as int) == data.len(),
{
    lemma_chunks_total(data, chunks(data).len() as int);
}

impl Filesystem {
    /// The entries of a directory and what kind of object each is.
    pub fn readdir(&mut self, path: &str) -> (r: Result<Vec<(String, String)>, FsError>)
        requires
            old(self).wf(),
        ensures
            final(self).wf(),
            final(self)@ == old(self)@,
            match r {
                Ok(v) => old(self)@.listing(path@) == Ok::<Seq<(Seq<char>, Seq<char>)>, Fault>(
                    pair_texts(v@),
                ),
                Err(e) => old(self)@.listing(path@) == Err::<Seq<(Seq<char>, Seq<char>)>, Fault>(e@),
            },
    {
        let id: u64 = match self.resolve(path) {
            Ok(id) => id,
            Err(e) => {
                return Err(e);
            },
        };
        let inode = match self.read_inode(id) {
            Ok(inode) => inode,
            Err(e) => {
                return Err(e);
            },
        };
        match &*inode {
            Inode::File { .. } => Err(FsError::IsFile(path.to_owned())),
            Inode::Dir { entries, .. } => {
                let mut out: Vec<(String, String)> = Vec::new();
                let n: usize = entries.len();
                let ghost all = entries.entries();
                proof {
                    lemma_entries_unique::<String, u64>(all, dir_entries(entries@));
                }
                let mut i: usize = 0;
                assert(pair_texts(out@) =~= Seq::empty());
                while i < n
                    invariant
                        self.wf(),
                        self@ == old(self)@,
                        all == entries.entries(),
                        n == all.len(),
                        i <= n,
                        kinds(self@.inodes, all, i as int) == Ok::<
                            Seq<(Seq<char>, Seq<char>)>,
                            Fault,
                        >(pair_texts(out@)),
                        old(self)@.listing(path@) == kinds(self@.inodes, all, n as int),
                    decreases n - i,
                {
                    let e = entries.entry(i);
                    let child: u64 = *e.1;
                    match self.read_inode(child) {
                        Ok(found) => {
                            let ghost before = out@;
                            out.push((e.0.clone(), found.kind().to_owned()));
                            assert(pair_texts(out@) =~= pair_texts(before).push(
                                (all[i as int].0, kind_text((*found)@)),
                            ));
                        },
                        Err(err) => {
                            proof {
                                lemma_kinds_fails(self@.inodes, all, i + 1, n as int);
                            }
                            return Err(err);
                        },
                    }
                    i = i + 1;
                }
                Ok(out)
            },
        }
    }

    /// Create a named snapshot of the current state. O(1): records the root
    /// pointer; copy-on-write guarantees that the referenced inodes are never
    /// mutated.
    pub fn snapshot(&mut self, name: &str)
        requires
            old(self).wf(),
        ensures
            final(self).wf(),
            final(self)@ == (FsModel {
                snapshots: old(self)@.snapshots.insert(name@, old(self)@.state),
                ..old(self)@
            }),
    {
        self.snapshots.insert(name.to_owned(), self.state);
        assert(self@.tree() == old(self)@.tree());
        assert(self@ =~= (FsModel {
            snapshots: old(self)@.snapshots.insert(name@, old(self)@.state),
            ..old(self)@
        }));
    }

    /// The snapshots by name, each with the transaction at which it was taken.
    pub fn list_snapshots(&self) -> (v: Vec<(String, u64)>)
        ensures
            snapshot_list(v@) == self@.snapshot_list(),
    {
        let mut v: Vec<(String, u64)> = Vec::new();
        let n: usize = self.snapshots.len();
        let ghost all = self.snapshots.entries();
        proof {
            lemma_entries_unique::<String, SuperBlock>(all, self@.snapshot_entries());
        }
        let mut i: usize = 0;
        while i < n
            invariant
                all == self.snapshots.entries(),
                n == all.len(),
                i == v@.len(),
                i <= n,
                forall|j: int| 0 <= j < i ==> ((#[trigger] v@[j]).0@, v@[j].1) == (all[j].0, all[j].1.txg),
            decreases n - i,
        {
            let e = self.snapshots.entry(i);
            v.push((e.0.clone(), e.1.txg));
            i = i + 1;
        }
        assert(snapshot_list(v@) =~= self@.snapshot_list());
        v
    }

    /// Roll the live filesystem back to a snapshot's root. Monotonic inode
    /// allocation is preserved so ids are never reused.
    pub fn rollback(&mut self, name: &str) -> (r: Result<(), FsError>)
        requires
            old(self).wf(),
            old(self)@.state.txg < u64::MAX,
        ensures
            final(self).wf(),
            final(self)@ == old(self)@.rolled_back(name@).0,
            same_outcome(r, old(self)@.rolled_back(name@).1),
    {
        let key = name.to_owned();
        let snap: SuperBlock = match self.snapshots.get(&key) {
            Some(s) => *s,
            None => {
                return Err(FsError::NoSuchSnapshot(key));
            },
        };
        if snap.next_inode > self.state.next_inode {
            self.state.next_inode = snap.next_inode;
        }
        self.commit(snap.root);
        proof {
            assert(self@ =~= old(self)@.rolled_back(name@).0);
        }
        Ok(())
    }

    /// Begins to verify every stored block against its checksum.
    pub fn scrub(&self) -> (s: Scrub)
        requires
            self.wf(),
        ensures
            s@ == ScrubModel::start(self@.blocks),
    {
        self.blocks.scrub()
    }

    /// Block-cache statistics (resident bytes, hits, promotions, ...).
    pub fn cache_stats(&self) -> (s: CacheStats)
        requires
            self.wf(),
        ensures
            s.cap_bytes == self@.blocks.cache.cap,
            s.resident_bytes == self@.blocks.cache.resident(),
            s.protected_entries == self@.blocks.cache.protected.len(),
            s.probation_entries == self@.blocks.cache.probation.len(),
            self@.blocks.cache.probation.len() + self@.blocks.cache.protected.len() <= usize::MAX
                ==> s.entries == self@.blocks.cache.probation.len()
                + self@.blocks.cache.protected.len(),
            s.hits == self@.blocks.cache.hits,
            s.misses == self@.blocks.cache.misses,
            s.evictions == self@.blocks.cache.evictions,
            s.promotions == self@.blocks.cache.promotions,
    {
        self.blocks.cache_stats()
    }
}

/// What the pairs of strings say.
pub open spec fn pair_texts(v: Seq<(String, String)>) -> Seq<(Seq<char>, Seq<char>)> {
    Seq::new(v.len(), |i: int| (v[i].0@, v[i].1@))
}

/// What the names and numbers say.
pub open spec fn snapshot_list(v: Seq<(String, u64)>) -> Seq<(Seq<char>, u64)> {
    Seq::new(v.len(), |i: int| (v[i].0@, v[i].1))
}

/// The first `n` entries, each with the kind of object that it leads to.
pub open spec fn kinds(
    inodes: Map<u64, InodeModel>,
    entries: Seq<(Seq<char>, u64)>,
    n: int,
) -> Result<Seq<(Seq<char>, Seq<char>)>, Fault>
    decreases n,
{
    if n <= 0 {
        Ok(Seq::empty())
    } else {
        match kinds(inodes, entries, n - 1) {
            Err(e) => Err(e),
            Ok(v) => if inodes.contains_key(entries[n - 1].1) {
                Ok(v.push((entries[n - 1].0, kind_text(inodes[entries[n - 1].1]))))
            } else {
                Err(Fault::DanglingInode(entries[n - 1].1))
            },
        }
    }
}

proof fn lemma_kinds_fails(
    inodes: Map<u64, InodeModel>,
    entries: Seq<(Seq<char>, u64)>,
    m: int,
    n: int,
)
    requires
        m <= n,
        kinds(inodes, entries, m) is Err,
    ensures
        kinds(inodes, entries, n) == kinds(inodes, entries, m),
    decreases n - m,
{
    if m < n {
        lemma_kinds_fails(inodes, entries, m, n - 1);
    }
}

impl FsModel {
    /// The entries of the directory that a path leads to, each with its kind.
    pub open spec fn listing(self, path: Seq<char>) -> Result<Seq<(Seq<char>, Seq<char>)>, Fault> {
        match self.inode_at(path) {
            Err(e) => Err(e),
            Ok(InodeModel::File { .. }) => Err(Fault::IsFile(path)),
            Ok(InodeModel::Dir { entries, .. }) => kinds(
                self.inodes,
                dir_entries(entries),
                dir_entries(entries).len() as int,
            ),
        }
    }

    /// The snapshots in ascending order of their names.
    pub open spec fn snapshot_entries(self) -> Seq<(Seq<char>, SuperBlock)> {
        entries_of::<String, SuperBlock>(self.snapshots)
    }

    /// The names of the snapshots in ascending order, each with its transaction.
    pub open spec fn snapshot_list(self) -> Seq<(Seq<char>, u64)> {
        Seq::new(
            self.snapshot_entries().len(),
            |i: int| (self.snapshot_entries()[i].0, self.snapshot_entries()[i].1.txg),
        )
    }
}

/// The parts one behind the other.
pub open spec fn joined(parts: Seq<Seq<u8>>) -> Seq<u8>
    decreases parts.len(),
{
    if parts.len() == 0 {
        Seq::empty()
    } else {
        joined(parts.drop_last()) + parts.last()
    }
}

/// A file that is being read, block by block.
pub struct FileRead {
    wanted: Vec<crate::blockstore::Hash>,
    done: usize,
    out: Vec<u8>,
    parts: Ghost<Seq<Seq<u8>>>,
    inline: Ghost<Seq<u8>>,
}

/// The state of a [`FileRead`]: the addresses of the file's blocks, the bytes
/// of the blocks that have been read, and the content that stands in the inode.
#[verifier::ext_equal]
pub struct ReadModel {
    pub wanted: Seq<Seq<u8>>,
    pub parts: Seq<Seq<u8>>,
    pub inline: Seq<u8>,
}

impl ReadModel {
    /// Every block that has been read has the digest that was asked for.
    pub open spec fn verified(self) -> bool {
        &&& self.parts.len() <= self.wanted.len()
        &&& forall|i: int|
            0 <= i < self.parts.len() ==> digest(#[trigger] self.parts[i]) == self.wanted[i]
    }

    /// The start of a read of a file.
    pub open spec fn start(blocks: Seq<Seq<u8>>, data: Seq<u8>) -> ReadModel {
        ReadModel {
            wanted: blocks,
            parts: Seq::empty(),
            inline: if blocks.len() == 0 {
                data
            } else {
                Seq::empty()
            },
        }
    }

    /// One more block read.
    pub open spec fn with_part(self, bytes: Seq<u8>) -> ReadModel {
        ReadModel { parts: self.parts.push(bytes), ..self }
    }

    /// All blocks have been read.
    pub open spec fn complete(self) -> bool {
        self.parts.len() == self.wanted.len()
    }

    /// What has been read.
    pub open spec fn content(self) -> Seq<u8> {
        self.inline + joined(self.parts)
    }
}

impl View for FileRead {
    type V = ReadModel;

    closed spec fn view(&self) -> ReadModel {
        ReadModel {
            wanted: addresses(self.wanted@),
            parts: self.parts@,
            inline: self.inline@,
        }
    }
}

impl FileRead {
    pub closed spec fn wf(&self) -> bool {
        &&& self@.verified()
        &&& self.done == self.parts@.len()
        &&& self.out@ == self@.content()
    }

    /// What [`FileRead::wf`] says of the state.
    pub proof fn lemma_wf(&self)
        requires
            self.wf(),
        ensures
            self@.verified(),
    {
    }

    fn take(&mut self, bytes: &Vec<u8>)
        requires
            old(self).wf(),
            !old(self)@.complete(),
            digest(bytes@) == old(self)@.wanted[old(self)@.parts.len() as int],
        ensures
            final(self).wf(),
            final(self)@ == old(self)@.with_part(bytes@),
    {
        assert(self.done < self.wanted.len());
        let ghost parts = self.parts@;
        self.out.extend_from_slice(bytes.as_slice());
        self.done = self.done + 1;
        self.parts = Ghost(parts.push(bytes@));
        proof {
            assert(parts.push(bytes@).drop_last() =~= parts);
            assert(self.out@ =~= self@.content());
            assert(self@ =~= old(self)@.with_part(bytes@));
        }
    }

    /// The content, once every block has been read.
    pub fn finish(self) -> (out: Vec<u8>)
        requires
            self.wf(),
            self@.complete(),
        ensures
            out@ == self@.content(),
    {
        self.out
    }
}

/// The next step of a [`FileRead`].
pub enum Step {
    /// The next block was in the cache and has been taken.
    Taken,
    /// The next block is to be read from the log and given to
    /// [`Filesystem::supply`].
    Read(Extent),
    /// Every block has been taken.
    Complete,
}

impl Filesystem {
    /// Begins to read a file. The content is complete at once where it stands
    /// in the inode; else the blocks are taken with [`Filesystem::fetch`] and
    /// [`Filesystem::supply`], which verify every block's checksum.
    pub fn read_file(&mut self, path: &str) -> (r: Result<FileRead, FsError>)
        requires
            old(self).wf(),
        ensures
            final(self).wf(),
            final(self)@ == old(self)@,
            match r {
                Ok(job) => job.wf() && (old(self)@.inode_at(path@) matches Ok(InodeModel::File {
                    blocks,
                    data,
                    ..
                }) && job@ == ReadModel::start(blocks, data)),
                Err(e) => match old(self)@.inode_at(path@) {
                    Ok(InodeModel::Dir { .. }) => e@ == Fault::IsDirectory(path@),
                    Ok(_) => false,
                    Err(f) => e@ == f,
                },
            },
    {
        let id: u64 = match self.resolve(path) {
            Ok(id) => id,
            Err(e) => {
                return Err(e);
            },
        };
        let inode = match self.read_inode(id) {
            Ok(inode) => inode,
            Err(e) => {
                return Err(e);
            },
        };
        match &*inode {
            Inode::Dir { .. } => Err(FsError::IsDirectory(path.to_owned())),
            Inode::File { blocks, inline, .. } => {
                let ghost m = ReadModel::start(addresses(blocks@), inline@);
                let mut out: Vec<u8> = Vec::new();
                let mut wanted: Vec<crate::blockstore::Hash> = Vec::new();
                if blocks.len() == 0 {
                    out.extend_from_slice(inline.as_slice());
                    assert(addresses(blocks@) =~= addresses(wanted@));
                    assert(out@ =~= m.content());
                } else {
                    wanted = copy_hashes(blocks);
                    assert(out@ =~= m.content());
                }
                let job = FileRead {
                    wanted,
                    done: 0,
                    out,
                    parts: Ghost(Seq::empty()),
                    inline: Ghost(m.inline),
                };
                assert(job@ =~= m);
                Ok(job)
            },
        }
    }

    /// Goes on with a read: takes the next block if it is in the cache, else
    /// says where it stands in the log.
    pub fn fetch(&mut self, job: &mut FileRead) -> (r: Result<Step, FsError>)
        requires
            old(self).wf(),
            old(job).wf(),
        ensures
            final(self).wf(),
            final(job).wf(),
            if old(job)@.complete() {
                r == Ok::<Step, FsError>(Step::Complete) && final(job)@ == old(job)@ && final(self)@
                    == old(self)@
            } else {
                let k = old(job)@.wanted[old(job)@.parts.len() as int];
                let b = old(self)@.blocks;
                &&& final(self)@ == (FsModel {
                    blocks: BlocksModel { cache: b.cache.looked_up(k), ..b },
                    ..old(self)@
                })
                &&& match r {
                    Ok(Step::Taken) => b.cache.lookup(k) is Some && final(job)@ == old(
                        job,
                    )@.with_part(b.cache.lookup(k).unwrap()),
                    Ok(Step::Read(e)) => b.cache.lookup(k) is None && b.index.contains_key(k) && e
                        == b.index[k] && final(job)@ == old(job)@,
                    Ok(Step::Complete) => false,
                    Err(e) => b.cache.lookup(k) is None && !b.index.contains_key(k) && e@
                        == Fault::BlockNotFound(k) && final(job)@ == old(job)@,
                }
            },
    {
        if job.done >= job.wanted.len() {
            return Ok(Step::Complete);
        }
        let hash = job.wanted[job.done];
        assert(job@.wanted[job.done as int] == hash@);
        let found = self.blocks.lookup(&hash);
        proof {
            assert(self@.tree() == old(self)@.tree());
            assert(self@ =~= (FsModel {
                blocks: BlocksModel {
                    cache: old(self)@.blocks.cache.looked_up(hash@),
                    ..old(self)@.blocks
                },
                ..old(self)@
            }));
        }
        match found {
            Lookup::Cached(v) => {
                job.take(&v);
                Ok(Step::Taken)
            },
            Lookup::OnDisk(e) => Ok(Step::Read(e)),
            Lookup::Missing => Err(FsError::BlockNotFound(hash)),
        }
    }

    /// Goes on with a read: takes bytes that were read from the log as the next
    /// block, unless they have another digest than the block's address.
    pub fn supply(&mut self, job: &mut FileRead, buf: Vec<u8>) -> (r: Result<(), FsError>)
        requires
            old(self).wf(),
            old(job).wf(),
            !old(job)@.complete(),
            ({
                let k = old(job)@.wanted[old(job)@.parts.len() as int];
                old(self)@.blocks.index.contains_key(k) ==> buf@.len()
                    == old(self)@.blocks.index[k].len
            }),
        ensures
            final(self).wf(),
            final(job).wf(),
            ({
                let k = old(job)@.wanted[old(job)@.parts.len() as int];
                let b = old(self)@.blocks;
                match r {
                    Ok(_) => b.index.contains_key(k) && digest(buf@) == k && final(job)@ == old(
                        job,
                    )@.with_part(buf@) && final(self)@ == (FsModel {
                        blocks: BlocksModel { cache: b.cache.inserted(k, buf@), ..b },
                        ..old(self)@
                    }),
                    Err(e) => {
                        &&& if b.index.contains_key(k) {
                            digest(buf@) != k && e@ == (Fault::IntegrityFailed {
                                expected: k,
                                actual: digest(buf@),
                            })
                        } else {
                            e@ == Fault::BlockNotFound(k)
                        }
                        &&& final(job)@ == old(job)@
                        &&& final(self)@ == old(self)@
                    },
                }
            }),
    {
        let hash = job.wanted[job.done];
        assert(job@.wanted[job.done as int] == hash@);
        let ghost bytes = buf@;
        match self.blocks.accept(&hash, buf) {
            Ok(v) => {
                proof {
                    assert(self@.tree() == old(self)@.tree());
                            assert(self@ =~= (FsModel {
                        blocks: BlocksModel {
                            cache: old(self)@.blocks.cache.inserted(hash@, bytes),
                            ..old(self)@.blocks
                        },
                        ..old(self)@
                    }));
                }
                job.take(&v);
                Ok(())
            },
            Err(why) => {
                assert(self@ =~= old(self)@);
                assert(self@.tree() == old(self)@.tree());
                    match why {
                    Refusal::NotStored => Err(FsError::BlockNotFound(hash)),
                    Refusal::Corrupt(actual) => Err(
                        FsError::IntegrityFailed { expected: hash, actual },
                    ),
                }
            },
        }
    }
}

fn copy_hashes(v: &Vec<crate::blockstore::Hash>) -> (r: Vec<crate::blockstore::Hash>)
    ensures
        addresses(r@) == addresses(v@),
{
    let mut r: Vec<crate::blockstore::Hash> = Vec::new();
    let mut i: usize = 0;
    while i < v.len()
        invariant
            i <= v@.len(),
            r@.len() == i,
            forall|j: int| 0 <= j < i ==> r@[j] == v@[j],
        decreases v@.len() - i,
    {
        r.push(v[i]);
        i = i + 1;
    }
    assert(r@ =~= v@);
    r
}

/// A count as it is kept: modulo 2^64.
pub open spec fn wrapped(n: nat) -> u64 {
    (n % 0x1_0000_0000_0000_0000) as u64
}

/// How many of the inodes are files.
pub open spec fn file_count(seen: Seq<InodeModel>) -> nat
    decreases seen.len(),
{
    if seen.len() == 0 {
        0
    } else {
        file_count(seen.drop_last()) + if seen.last() is File {
            1nat
        } else {
            0nat
        }
    }
}

/// How many of the inodes are directories.
pub open spec fn dir_count(seen: Seq<InodeModel>) -> nat
    decreases seen.len(),
{
    if seen.len() == 0 {
        0
    } else {
        dir_count(seen.drop_last()) + if seen.last() is Dir {
            1nat
        } else {
            0nat
        }
    }
}

/// The sizes of the files together.
pub open spec fn logical_bytes(seen: Seq<InodeModel>) -> nat
    decreases seen.len(),
{
    if seen.len() == 0 {
        0
    } else {
        logical_bytes(seen.drop_last()) + match seen.last() {
            InodeModel::File { size, .. } => size as nat,
            InodeModel::Dir { .. } => 0,
        }
    }
}

/// The lengths of the blocks under the first `n` addresses together.
pub open spec fn block_bytes(b: BlocksModel, blocks: Seq<Seq<u8>>, n: int) -> nat
    decreases n,
{
    if n <= 0 {
        0
    } else {
        block_bytes(b, blocks, n - 1) + b.len_of(blocks[n - 1]) as nat
    }
}

/// The lengths of all blocks that the files refer to, once per reference.
pub open spec fn referenced_bytes(b: BlocksModel, seen: Seq<InodeModel>) -> nat
    decreases seen.len(),
{
    if seen.len() == 0 {
        0
    } else {
        referenced_bytes(b, seen.drop_last()) + match seen.last() {
            InodeModel::File { blocks, .. } => block_bytes(b, blocks, blocks.len() as int),
            InodeModel::Dir { .. } => 0,
        }
    }
}

/// One of the files refers to the block `k`.
pub open spec fn refers_to(seen: Seq<InodeModel>, k: Seq<u8>) -> bool {
    exists|i: int| 0 <= i < seen.len() && #[trigger] inode_refers_to(seen[i], k)
}

pub open spec fn inode_refers_to(inode: InodeModel, k: Seq<u8>) -> bool {
    inode is File && inode->blocks.contains(k)
}

/// The addresses in ascending order.
pub open spec fn sorted_addresses(live: Map<Seq<u8>, ()>) -> Seq<(Seq<u8>, ())> {
    entries_of::<crate::blockstore::Hash, ()>(live)
}

/// The addresses that the files refer to.
pub open spec fn references(seen: Seq<InodeModel>) -> Map<Seq<u8>, ()> {
    Map::new(|k: Seq<u8>| refers_to(seen, k), |k: Seq<u8>| ())
}

/// The lengths of the blocks under the first `n` addresses of a sorted list.
pub open spec fn unique_bytes(b: BlocksModel, live: Seq<(Seq<u8>, ())>, n: int) -> nat
    decreases n,
{
    if n <= 0 {
        0
    } else {
        unique_bytes(b, live, n - 1) + b.len_of(live[n - 1].0) as nat
    }
}

/// Sizes and counts of a filesystem.
#[derive(Debug, Clone)]
pub struct FsInfo {
    pub txg: u64,
    pub files: u64,
    pub dirs: u64,
    pub unique_blocks: usize,
    pub logical_bytes: u64,
    /// Bytes of the blocks that live files refer to, counting duplicates.
    pub referenced_bytes: u64,
    /// Unique bytes referenced by live files.
    pub physical_referenced: u64,
    /// All stored block bytes, including orphans not yet reclaimed.
    pub physical_total: u64,
    /// Orphaned bytes from deleted/overwritten data.
    pub reclaimable_bytes: u64,
}

impl FsModel {
    /// `info` says what the walk over `seen` found.
    pub open spec fn info_of(self, info: FsInfo, seen: Seq<InodeModel>) -> bool {
        let live = sorted_addresses(references(seen));
        &&& info.txg == self.state.txg
        &&& info.files == wrapped(file_count(seen))
        &&& info.dirs == wrapped(dir_count(seen))
        &&& info.unique_blocks == self.blocks.entries().len()
        &&& info.logical_bytes == wrapped(logical_bytes(seen))
        &&& info.referenced_bytes == wrapped(referenced_bytes(self.blocks, seen))
        &&& info.physical_referenced == wrapped(
            unique_bytes(self.blocks, live, live.len() as int),
        )
        &&& info.physical_total == self.blocks.physical()
        &&& info.reclaimable_bytes == if info.physical_total >= info.physical_referenced {
            info.physical_total - info.physical_referenced
        } else {
            0
        }
    }

    /// The roots that pin data: the live one, then those of the snapshots in
    /// ascending order of their names.
    pub open spec fn roots(self) -> Seq<u64> {
        seq![self.state.root] + Seq::new(
            self.snapshot_entries().len(),
            |i: int| self.snapshot_entries()[i].1.root,
        )
    }

    /// The inodes that can be reached from the live root or a snapshot.
    pub open spec fn pinned(self) -> Result<Seq<InodeModel>, Fault> {
        visited_all(self.inodes, self.roots(), self.roots().len())
    }

    /// The walks from the live root and from the snapshots come to an end.
    pub open spec fn pinned_ends(self) -> bool {
        ends_all(self.inodes, self.roots(), self.roots().len())
    }
}

/// What a walk has found.
struct Usage {
    files: u64,
    dirs: u64,
    logical: u64,
    referenced: u64,
    live: SortedMap<crate::blockstore::Hash, ()>,
    seen: Ghost<Seq<InodeModel>>,
}

impl Usage {
    spec fn counts(&self, b: BlocksModel) -> bool {
        &&& self.files == wrapped(file_count(self.seen@))
        &&& self.dirs == wrapped(dir_count(self.seen@))
        &&& self.logical == wrapped(logical_bytes(self.seen@))
        &&& self.referenced == wrapped(referenced_bytes(b, self.seen@))
        &&& self.live@ == references(self.seen@)
    }

    fn new() -> (u: Usage)
        ensures
            u.seen@ == Seq::<InodeModel>::empty(),
            forall|b: BlocksModel| u.counts(b),
    {
        let u = Usage {
            files: 0,
            dirs: 0,
            logical: 0,
            referenced: 0,
            live: SortedMap::new(),
            seen: Ghost(Seq::empty()),
        };
        assert(u.live@ =~= references(u.seen@));
        u
    }
}

proof fn lemma_live_step(
    live: Map<Seq<u8>, ()>,
    seen: Seq<InodeModel>,
    refs: Seq<Seq<u8>>,
    i: int,
)
    requires
        0 <= i < refs.len(),
        forall|k: Seq<u8>| #[trigger]
            live.contains_key(k) <==> refers_to(seen, k) || refs.take(i).contains(k),
    ensures
        forall|k: Seq<u8>| #[trigger]
            live.insert(refs[i], ()).contains_key(k) <==> refers_to(seen, k) || refs.take(
                i + 1,
            ).contains(k),
{
    let now = refs.take(i + 1);
    assert(now =~= refs.take(i).push(refs[i]));
    assert forall|k: Seq<u8>| #[trigger] live.insert(refs[i], ()).contains_key(k) <==> refers_to(
        seen,
        k,
    ) || now.contains(k) by {
        assert(live.contains_key(k) <==> refers_to(seen, k) || refs.take(i).contains(k));
        if refs.take(i).contains(k) {
            let j = choose|j: int| 0 <= j < i && refs.take(i)[j] == k;
            assert(now[j] == k);
        }
        assert(now[i] == refs[i]);
    }
}

/// Where the walks from all ids end, so do those from the first ones.
proof fn lemma_walks_of_first(
    inodes: Map<u64, InodeModel>,
    ids: Seq<u64>,
    m: nat,
    n: nat,
    depth: nat,
)
    requires
        m <= n,
        walk_all_within(inodes, ids, n, depth) is Some,
    ensures
        walk_all_within(inodes, ids, m, depth) is Some,
        walk_all_within(inodes, ids, m, depth).unwrap() is Err ==> walk_all_within(
            inodes,
            ids,
            n,
            depth,
        ) == walk_all_within(inodes, ids, m, depth),
    decreases n,
{
    if m < n {
        lemma_walks_of_first(inodes, ids, m, (n - 1) as nat, depth);
    }
}

/// Walks stop where one of them fails or goes too deep.
proof fn lemma_walk_all_stops(
    inodes: Map<u64, InodeModel>,
    ids: Seq<u64>,
    m: nat,
    n: nat,
    depth: nat,
)
    requires
        m <= n,
        walk_all_within(inodes, ids, m, depth) is None || walk_all_within(
            inodes,
            ids,
            m,
            depth,
        ).unwrap() is Err,
    ensures
        walk_all_within(inodes, ids, n, depth) == walk_all_within(inodes, ids, m, depth),
    decreases n,
{
    if m < n {
        lemma_walk_all_stops(inodes, ids, m, (n - 1) as nat, depth);
    }
}

/// Nothing is walked after a walk that failed.
proof fn lemma_failed_walks_end(inodes: Map<u64, InodeModel>, ids: Seq<u64>, m: nat, n: nat)
    requires
        m <= n,
        ends_all(inodes, ids, m),
        visited_all(inodes, ids, m) is Err,
    ensures
        ends_all(inodes, ids, n),
    decreases n,
{
    if m < n {
        lemma_failed_walks_end(inodes, ids, m, (n - 1) as nat);
        lemma_visited_all_fails(inodes, ids, m, (n - 1) as nat);
    }
}

impl Filesystem {
    /// Takes one inode into account.
    fn count(&self, inode: &Inode, acc: &mut Usage)
        requires
            old(acc).counts(self@.blocks),
        ensures
            final(acc).counts(self@.blocks),
            final(acc).seen@ == old(acc).seen@.push(inode@),
    {
        let ghost before = acc.seen@;
        let ghost after = before.push(inode@);
        assert(after.drop_last() =~= before);
        match inode {
            Inode::Dir { .. } => {
                acc.dirs = acc.dirs.wrapping_add(1);
                proof {
                    assert forall|k: Seq<u8>| refers_to(after, k) == refers_to(before, k) by {
                        lemma_refers_push(before, inode@, k);
                    }
                    assert(references(after) =~= references(before));
                }
            },
            Inode::File { size, blocks, .. } => {
                acc.files = acc.files.wrapping_add(1);
                acc.logical = acc.logical.wrapping_add(*size);
                let ghost b = self@.blocks;
                let ghost refs = addresses(blocks@);
                let ghost base = referenced_bytes(b, before);
                let mut i: usize = 0;
                while i < blocks.len()
                    invariant
                        i <= blocks@.len(),
                        b == self@.blocks,
                        refs == addresses(blocks@),
                        acc.referenced == wrapped(base + block_bytes(b, refs, i as int)),
                        forall|k: Seq<u8>| #[trigger]
                            acc.live@.contains_key(k) <==> refers_to(before, k) || refs.take(
                                i as int,
                            ).contains(k),
                        acc.files == wrapped(file_count(after)),
                        acc.dirs == wrapped(dir_count(after)),
                        acc.logical == wrapped(logical_bytes(after)),
                        acc.seen@ == before,
                    decreases blocks@.len() - i,
                {
                    let len = self.blocks.len_for(&blocks[i]) as u64;
                    acc.referenced = acc.referenced.wrapping_add(len);
                    let ghost live = acc.live@;
                    acc.live.insert(blocks[i], ());
                    proof {
                        assert(refs[i as int] == blocks@[i as int]@);
                        lemma_live_step(live, before, refs, i as int);
                    }
                    i = i + 1;
                }
                proof {
                    assert(refs.take(i as int) =~= refs);
                    assert forall|k: Seq<u8>| #[trigger] acc.live@.contains_key(k) == references(
                        after,
                    ).contains_key(k) by {
                        lemma_refers_push(before, inode@, k);
                    }
                    assert(acc.live@ =~= references(after));
                }
            },
        }
        acc.seen = Ghost(after);
    }

    /// Visits the inodes at and below `id`, each directory before its entries.
    fn walk(&mut self, id: u64, acc: &mut Usage, Ghost(depth): Ghost<nat>) -> (r: Result<
        (),
        FsError,
    >)
        requires
            old(self).wf(),
            old(acc).counts(old(self)@.blocks),
            walk_within(old(self)@.inodes, id, depth) is Some,
        ensures
            final(self).wf(),
            final(self)@ == old(self)@,
            final(acc).counts(old(self)@.blocks),
            match r {
                Ok(_) => {
                    let w = walk_within(old(self)@.inodes, id, depth).unwrap();
                    w is Ok && final(acc).seen@ == old(acc).seen@ + w->Ok_0
                },
                Err(e) => walk_within(old(self)@.inodes, id, depth).unwrap() == Err::<
                    Seq<InodeModel>,
                    Fault,
                >(e@),
            },
        decreases depth,
    {
        let ghost before = acc.seen@;
        let ghost less = (depth - 1) as nat;
        let ghost inodes = self@.inodes;
        let inode = match self.read_inode(id) {
            Ok(inode) => inode,
            Err(e) => {
                return Err(e);
            },
        };
        self.count(&inode, acc);
        match &*inode {
            Inode::File { .. } => {
                assert(acc.seen@ =~= before + seq![inodes[id]]);
            },
            Inode::Dir { entries, .. } => {
                let n: usize = entries.len();
                let ghost all = entries.entries();
                let ghost kids = dir_children(entries@);
                proof {
                    lemma_entries_unique::<String, u64>(all, dir_entries(entries@));
                    assert(acc.seen@ =~= before + (seq![inodes[id]] + Seq::<InodeModel>::empty()));
                    lemma_walks_of_first(inodes, kids, 0, kids.len(), less);
                }
                let mut i: usize = 0;
                while i < n
                    invariant
                        self.wf(),
                        self@ == old(self)@,
                        inodes == self@.inodes,
                        inodes.contains_key(id),
                        inodes[id] == (InodeModel::Dir {
                            entries: entries@,
                            mtime: inodes[id]->Dir_mtime,
                        }),
                        all == entries.entries(),
                        all == dir_entries(entries@),
                        ascending::<String, u64>(all),
                        kids == dir_children(entries@),
                        n == all.len(),
                        i <= n,
                        depth > 0,
                        less == depth - 1,
                        walk_all_within(inodes, kids, kids.len(), less) is Some,
                        acc.counts(self@.blocks),
                        walk_all_within(inodes, kids, i as nat, less) is Some,
                        walk_all_within(inodes, kids, i as nat, less).unwrap() is Ok,
                        acc.seen@ == before + (seq![inodes[id]] + walk_all_within(
                            inodes,
                            kids,
                            i as nat,
                            less,
                        ).unwrap()->Ok_0),
                    decreases n - i,
                {
                    let e = entries.entry(i);
                    let child: u64 = *e.1;
                    proof {
                        assert(kids[i as int] == child);
                        lemma_walks_of_first(inodes, kids, (i + 1) as nat, kids.len(), less);
                    }
                    match self.walk(child, acc, Ghost(less)) {
                        Ok(_) => {
                            proof {
                                let v = walk_all_within(inodes, kids, i as nat, less).unwrap()->Ok_0;
                                let w = walk_within(inodes, child, less).unwrap()->Ok_0;
                                assert(walk_all_within(
                                    inodes,
                                    kids,
                                    (i + 1) as nat,
                                    less,
                                ).unwrap()->Ok_0 == v + w);
                                assert(before + (seq![inodes[id]] + v) + w =~= before + (
                                seq![inodes[id]] + (v + w)));
                            }
                        },
                        Err(err) => {
                            return Err(err);
                        },
                    }
                    i = i + 1;
                }
            },
        }
        Ok(())
    }

    /// Whether a walk from `id` ends within a depth, and if so, whether it
    /// succeeds.
    fn walk_outcome(&self, id: u64, depth: u128) -> (r: Option<bool>)
        requires
            self.wf(),
        ensures
            match walk_within(self@.inodes, id, depth as nat) {
                None => r is None,
                Some(w) => r == Some(w is Ok),
            },
        decreases depth,
    {
        if depth == 0 {
            return None;
        }
        let ghost inodes = self@.inodes;
        let ghost less = (depth - 1) as nat;
        match self.inodes.get(&id) {
            None => Some(false),
            Some(inode) => match &**inode {
                Inode::File { .. } => Some(true),
                Inode::Dir { entries, .. } => {
                    let n: usize = entries.len();
                    let ghost all = entries.entries();
                    let ghost kids = dir_children(entries@);
                    proof {
                        lemma_entries_unique::<String, u64>(all, dir_entries(entries@));
                        assert(inodes[id]->entries == entries@);
                    }
                    let mut i: usize = 0;
                    while i < n
                        invariant
                            self.wf(),
                            inodes == self@.inodes,
                            inodes.contains_key(id),
                            inodes[id] is Dir,
                            inodes[id]->entries == entries@,
                            all == entries.entries(),
                            all == dir_entries(entries@),
                            kids == dir_children(entries@),
                            n == all.len(),
                            i <= n,
                            depth > 0,
                            less == depth - 1,
                            walk_all_within(inodes, kids, i as nat, less) is Some,
                            walk_all_within(inodes, kids, i as nat, less).unwrap() is Ok,
                        decreases n - i,
                    {
                        let e = entries.entry(i);
                        let child: u64 = *e.1;
                        assert(kids[i as int] == child);
                        match self.walk_outcome(child, depth - 1) {
                            Some(true) => {},
                            Some(false) => {
                                proof {
                                    lemma_walk_all_stops(
                                        inodes,
                                        kids,
                                        (i + 1) as nat,
                                        kids.len(),
                                        less,
                                    );
                                }
                                return Some(false);
                            },
                            None => {
                                proof {
                                    lemma_walk_all_stops(
                                        inodes,
                                        kids,
                                        (i + 1) as nat,
                                        kids.len(),
                                        less,
                                    );
                                }
                                return None;
                            },
                        }
                        i = i + 1;
                    }
                    Some(true)
                },
            },
        }
    }

    /// Whether a walk from `id` ends, and if so, whether it succeeds.
    fn walk_ends_from(&self, id: u64) -> (r: Option<bool>)
        requires
            self.wf(),
        ensures
            r is Some <==> ends(self@.inodes, id),
            r is Some ==> r == Some(visited(self@.inodes, id) is Ok),
    {
        let depth: u128 = self.inodes.len() as u128 + 1;
        let r = self.walk_outcome(id, depth);
        proof {
            self.inodes.lemma_finite();
            assert(self@.inodes.dom() =~= self.inodes@.dom());
            if ends(self@.inodes, id) {
                law_walk_depth(self@.inodes, id, (depth - 1) as nat);
            }
            if r is Some {
                lemma_visited_is(self@.inodes, id, depth as nat);
            }
        }
        r
    }

    /// Whether a walk over the live tree comes to an end.
    pub fn walk_ends(&self) -> (r: bool)
        requires
            self.wf(),
        ensures
            r == ends(self@.inodes, self@.state.root),
    {
        self.walk_ends_from(self.state.root).is_some()
    }

    /// Whether the walks over the live tree and every snapshot come to an end.
    pub fn all_walks_end(&self) -> (r: bool)
        requires
            self.wf(),
        ensures
            r == self@.pinned_ends(),
    {
        let roots = self.root_list();
        let ghost inodes = self@.inodes;
        let mut i: usize = 0;
        while i < roots.len()
            invariant
                self.wf(),
                inodes == self@.inodes,
                roots@ == self@.roots(),
                i <= roots@.len(),
                ends_all(inodes, roots@, i as nat),
                visited_all(inodes, roots@, i as nat) is Ok,
            decreases roots@.len() - i,
        {
            match self.walk_ends_from(roots[i]) {
                Some(true) => {},
                Some(false) => {
                    proof {
                        lemma_failed_walks_end(
                            inodes,
                            roots@,
                            (i + 1) as nat,
                            roots@.len(),
                        );
                    }
                    return true;
                },
                None => {
                    proof {
                        if ends_all(inodes, roots@, roots@.len()) {
                            lemma_ends_all_part(inodes, roots@, (i + 1) as nat, roots@.len());
                        }
                    }
                    return false;
                },
            }
            i = i + 1;
        }
        true
    }

    /// Sizes and counts: what the live tree holds and what is stored for it.
    pub fn info(&mut self) -> (r: Result<FsInfo, FsError>)
        requires
            old(self).wf(),
            ends(old(self)@.inodes, old(self)@.state.root),
        ensures
            final(self).wf(),
            final(self)@ == old(self)@,
            match r {
                Ok(info) => visited(old(self)@.inodes, old(self)@.state.root) is Ok && old(
                    self,
                )@.info_of(info, visited(old(self)@.inodes, old(self)@.state.root)->Ok_0),
                Err(e) => visited(old(self)@.inodes, old(self)@.state.root) == Err::<
                    Seq<InodeModel>,
                    Fault,
                >(e@),
            },
    {
        let mut acc = Usage::new();
        let root = self.state.root;
        let ghost depth = choose|depth: nat| #[trigger]
            walk_within(self@.inodes, root, depth) is Some;
        proof {
            lemma_visited_is(self@.inodes, root, depth);
        }
        if let Err(e) = self.walk(root, &mut acc, Ghost(depth)) {
            return Err(e);
        }
        let ghost seen = visited(self@.inodes, root)->Ok_0;
        assert(acc.seen@ =~= seen);
        let ghost live = acc.live.entries();
        let ghost b = self@.blocks;
        let n: usize = acc.live.len();
        proof {
            lemma_entries_unique::<crate::blockstore::Hash, ()>(
                live,
                sorted_addresses(references(seen)),
            );
        }
        let mut physical_referenced: u64 = 0;
        let mut i: usize = 0;
        while i < n
            invariant
                live == acc.live.entries(),
                n == live.len(),
                i <= n,
                b == self@.blocks,
                physical_referenced == wrapped(unique_bytes(b, live, i as int)),
            decreases n - i,
        {
            let e = acc.live.entry(i);
            physical_referenced = physical_referenced.wrapping_add(self.blocks.len_for(e.0) as u64);
            i = i + 1;
        }
        let physical_total = self.blocks.physical_bytes();
        let reclaimable_bytes: u64 = if physical_total >= physical_referenced {
            physical_total - physical_referenced
        } else {
            0
        };
        Ok(
            FsInfo {
                txg: self.state.txg,
                files: acc.files,
                dirs: acc.dirs,
                unique_blocks: self.blocks.block_count(),
                logical_bytes: acc.logical,
                referenced_bytes: acc.referenced,
                physical_referenced,
                physical_total,
                reclaimable_bytes,
            },
        )
    }

    /// The live root and the roots of the snapshots.
    fn root_list(&self) -> (v: Vec<u64>)
        requires
            self.wf(),
        ensures
            v@ == self@.roots(),
    {
        let mut v: Vec<u64> = Vec::new();
        v.push(self.state.root);
        let n: usize = self.snapshots.len();
        let ghost all = self.snapshots.entries();
        proof {
            lemma_entries_unique::<String, SuperBlock>(all, self@.snapshot_entries());
        }
        let mut i: usize = 0;
        while i < n
            invariant
                self.wf(),
                all == self.snapshots.entries(),
                ascending::<String, SuperBlock>(all),
                map_of(all) == self@.snapshots,
                all == self@.snapshot_entries(),
                n == all.len(),
                i <= n,
                v@ == self@.roots().take(i + 1),
            decreases n - i,
        {
            let root = self.snapshots.entry(i).1.root;
            proof {
                lemma_map_of_entry::<String, SuperBlock>(all, i as int);
                assert(self@.snapshots.contains_key(all[i as int].0));
                assert(self@.roots()[i + 1] == root);
            }
            v.push(root);
            assert(v@ =~= self@.roots().take(i + 2));
            i = i + 1;
        }
        assert(v@ =~= self@.roots());
        v
    }

    /// The blocks that are still reachable from the live root and every
    /// snapshot root (snapshots pin data, so they count).
    pub fn gc_live(&mut self) -> (r: Result<SortedMap<crate::blockstore::Hash, ()>, FsError>)
        requires
            old(self).wf(),
            old(self)@.pinned_ends(),
        ensures
            final(self).wf(),
            final(self)@ == old(self)@,
            match r {
                Ok(live) => old(self)@.pinned() is Ok && live@ == references(
                    old(self)@.pinned()->Ok_0,
                ),
                Err(e) => old(self)@.pinned() == Err::<Seq<InodeModel>, Fault>(e@),
            },
    {
        let mut acc = Usage::new();
        let roots = self.root_list();
        let ghost inodes = self@.inodes;
        let mut i: usize = 0;
        while i < roots.len()
            invariant
                self.wf(),
                self@ == old(self)@,
                inodes == self@.inodes,
                roots@ == self@.roots(),
                ends_all(inodes, roots@, roots@.len()),
                i <= roots@.len(),
                acc.counts(self@.blocks),
                visited_all(inodes, roots@, i as nat) is Ok,
                acc.seen@ == visited_all(inodes, roots@, i as nat)->Ok_0,
            decreases roots@.len() - i,
        {
            let ghost depth = choose|depth: nat| #[trigger]
                walk_within(inodes, roots@[i as int], depth) is Some;
            proof {
                lemma_ends_all_part(inodes, roots@, (i + 1) as nat, roots@.len());
                lemma_visited_is(inodes, roots@[i as int], depth);
            }
            match self.walk(roots[i], &mut acc, Ghost(depth)) {
                Ok(_) => {
                    assert(visited_all(inodes, roots@, (i + 1) as nat) is Ok);
                },
                Err(e) => {
                    proof {
                        assert(visited_all(inodes, roots@, (i + 1) as nat) is Err);
                        lemma_visited_all_fails(
                            inodes,
                            roots@,
                            (i + 1) as nat,
                            roots@.len(),
                        );
                    }
                    return Err(e);
                },
            }
            i = i + 1;
        }
        Ok(acc.live)
    }

    /// The live blocks and where their data stands, in the order in which their
    /// records are to be copied to a new log, each by way of
    /// [`Filesystem::gc_copy`].
    pub fn gc_reads(&self, live: &SortedMap<crate::blockstore::Hash, ()>) -> (v: Vec<
        (crate::blockstore::Hash, Extent),
    >)
        requires
            self.wf(),
        ensures
            places(v@) == crate::blockstore::live_entries(
                self@.blocks.entries(),
                live@.dom(),
                self@.blocks.entries().len() as int,
            ),
    {
        self.blocks.compaction_reads(live)
    }

    /// The record of a live block for the new log, unless the bytes that were
    /// read for it have another digest than its address.
    pub fn gc_copy(hash: &crate::blockstore::Hash, bytes: &[u8]) -> (r: Result<Vec<u8>, FsError>)
        requires
            bytes@.len() <= u32::MAX,
        ensures
            match r {
                Ok(v) => digest(bytes@) == hash@ && v@ == record(bytes@),
                Err(e) => digest(bytes@) != hash@ && e@ == (Fault::IntegrityFailed {
                    expected: hash@,
                    actual: digest(bytes@),
                }),
            },
    {
        match BlockStore::copy_record(hash, bytes) {
            Ok(v) => Ok(v),
            Err(actual) => Err(FsError::IntegrityFailed { expected: *hash, actual }),
        }
    }

    /// Drops every block that is not in `live`, which [`Filesystem::gc_live`]
    /// gave; the log is the one that holds the records of
    /// [`Filesystem::gc_reads`] from here on.
    pub fn gc(&mut self, live: &SortedMap<crate::blockstore::Hash, ()>) -> (r: CompactStats)
        requires
            old(self).wf(),
            old(self)@.pinned() is Ok,
            live@ == references(old(self)@.pinned()->Ok_0),
        ensures
            final(self).wf(),
            final(self)@ == (FsModel {
                blocks: old(self)@.blocks.compacted(live@.dom()),
                ..old(self)@
            }),
            r.kept_blocks == final(self)@.blocks.entries().len(),
            r.kept_blocks + r.dropped_blocks == old(self)@.blocks.entries().len(),
            r.bytes_reclaimed == old(self)@.blocks.physical() - final(self)@.blocks.physical(),
    {
        let stats = self.blocks.compact(live);
        proof {
            assert(self@.tree() == old(self)@.tree());
            assert(self@ =~= (FsModel {
                blocks: old(self)@.blocks.compacted(live@.dom()),
                ..old(self)@
            }));
        }
        stats
    }
}

/// One more inode adds its own references.
pub proof fn lemma_refers_push(seen: Seq<InodeModel>, inode: InodeModel, k: Seq<u8>)
    ensures
        refers_to(seen.push(inode), k) == (refers_to(seen, k) || inode_refers_to(inode, k)),
{
    let all = seen.push(inode);
    if refers_to(seen, k) {
        let i = choose|i: int| 0 <= i < seen.len() && #[trigger] inode_refers_to(seen[i], k);
        assert(inode_refers_to(all[i], k));
    }
    if inode_refers_to(inode, k) {
        assert(inode_refers_to(all[seen.len() as int], k));
    }
    if refers_to(all, k) {
        let i = choose|i: int| 0 <= i < all.len() && #[trigger] inode_refers_to(all[i], k);
        if i < seen.len() {
            assert(inode_refers_to(seen[i], k));
        }
    }
}

/// The metadata of a filesystem as it was saved.
pub struct Saved {
    pub state: SuperBlock,
    pub inodes: SortedMap<u64, Arc<Inode>>,
    pub snapshots: SortedMap<String, SuperBlock>,
}

impl FsModel {
    /// A filesystem that was opened with what was saved, or a fresh one.
    pub open spec fn opened(saved: Option<Saved>, blocks: BlocksModel, now: i64) -> FsModel {
        match saved {
            None => FsModel::fresh(now, blocks),
            Some(s) => FsModel {
                inodes: table(s.inodes@),
                state: s.state,
                snapshots: s.snapshots@,
                blocks,
            },
        }
    }
}

/// The directories of a table can be listed.
fn check_listed(inodes: &SortedMap<u64, Arc<Inode>>)
    ensures
        listed(table(inodes@)),
{
    let n: usize = inodes.len();
    let ghost all = inodes.entries();
    let mut i: usize = 0;
    while i < n
        invariant
            all == inodes.entries(),
            ascending::<u64, Arc<Inode>>(all),
            n == all.len(),
            i <= n,
            forall|j: int|
                0 <= j < i && (*(#[trigger] all[j]).1)@ is Dir ==> {
                    let entries = (*all[j].1)@->entries;
                    &&& ascending::<String, u64>(dir_entries(entries))
                    &&& map_of(dir_entries(entries)) == entries
                },
        decreases n - i,
    {
        let e = inodes.entry(i);
        match &**e.1 {
            Inode::Dir { entries, .. } => {
                let _ = entries.len();
                proof {
                    lemma_entries_unique::<String, u64>(entries.entries(), dir_entries(entries@));
                }
            },
            Inode::File { .. } => {},
        }
        i = i + 1;
    }
    proof {
        assert forall|d: u64| #[trigger]
            table(inodes@).contains_key(d) && table(inodes@)[d] is Dir implies {
            &&& ascending::<String, u64>(dir_entries(table(inodes@)[d]->entries))
            &&& map_of(dir_entries(table(inodes@)[d]->entries)) == table(inodes@)[d]->entries
        } by {
            let j = crate::sorted::lemma_map_of_key(all, d);
            assert((*all[j].1)@ is Dir);
        }
    }
}

impl Filesystem {
    /// Opens a filesystem with the default RAM budget for blocks.
    pub fn open(
        saved: Option<Saved>,
        index: SortedMap<crate::blockstore::Hash, Extent>,
        log_len: u64,
        now: i64,
    ) -> (r: Option<Filesystem>)
        ensures
            r is Some <==> crate::blockstore::covered(index.entries()) + 4 * index.entries().len()
                <= u64::MAX,
            r matches Some(fs) ==> {
                &&& fs.wf()
                &&& fs@ == FsModel::opened(
                    saved,
                    BlocksModel {
                        index: index@,
                        log_len: log_len as nat,
                        cache: CacheModel::empty(DEFAULT_CACHE_BYTES),
                    },
                    now,
                )
            },
    {
        Filesystem::open_with_cache(saved, index, log_len, DEFAULT_CACHE_BYTES, now)
    }

    /// Opens a filesystem over a log of `log_len` bytes: with the metadata that
    /// was saved, or a fresh one where there is none. `None` where the
    /// index is larger than a log can be.
    pub fn open_with_cache(
        saved: Option<Saved>,
        index: SortedMap<crate::blockstore::Hash, Extent>,
        log_len: u64,
        cache_bytes: u64,
        now: i64,
    ) -> (r: Option<Filesystem>)
        ensures
            r is Some <==> crate::blockstore::covered(index.entries()) + 4 * index.entries().len()
                <= u64::MAX,
            r matches Some(fs) ==> {
                &&& fs.wf()
                &&& fs@ == FsModel::opened(
                    saved,
                    BlocksModel {
                        index: index@,
                        log_len: log_len as nat,
                        cache: CacheModel::empty(cache_bytes),
                    },
                    now,
                )
            },
    {
        let blocks = match BlockStore::open(index, log_len, cache_bytes) {
            Some(b) => b,
            None => {
                return None;
            },
        };
        let inode_cache = InodeCache::new(INODE_CACHE_ENTRIES);
        match saved {
            None => {
                let mut inodes: SortedMap<u64, Arc<Inode>> = SortedMap::new();
                let entries: SortedMap<String, u64> = SortedMap::new();
                proof {
                    assert(ascending::<String, u64>(entries.entries()));
                    assert(map_of(entries.entries()) == entries@);
                    lemma_entries_unique::<String, u64>(entries.entries(), dir_entries(entries@));
                }
                let root = Inode::Dir { entries, mtime: now };
                assert(root@ =~= empty_dir(now));
                inodes.insert(0, Arc::new(root));
                let fs = Filesystem {
                    blocks,
                    inodes,
                    snapshots: SortedMap::new(),
                    state: SuperBlock { root: 0, next_inode: 1, txg: 0 },
                    inode_cache,
                };
                proof {
                    assert(fs@.inodes =~= Map::empty().insert(0, empty_dir(now)));
                    assert(fs@ =~= FsModel::fresh(now, fs@.blocks));
                }
                Some(fs)
            },
            Some(s) => {
                check_listed(&s.inodes);
                let fs = Filesystem {
                    blocks,
                    inodes: s.inodes,
                    snapshots: s.snapshots,
                    state: s.state,
                    inode_cache,
                };
                assert(fs@ =~= FsModel::opened(saved, fs@.blocks, now));
                Some(fs)
            },
        }
    }

    /// The root pointer, to be saved after every transaction.
    pub fn state(&self) -> (st: SuperBlock)
        ensures
            st == self@.state,
    {
        self.state
    }

    /// The root pointer that a snapshot recorded, to be saved with its name.
    pub fn snapshot_state(&self, name: &String) -> (r: Option<SuperBlock>)
        ensures
            match r {
                Some(st) => self@.snapshots.contains_key(name@) && st == self@.snapshots[name@],
                None => !self@.snapshots.contains_key(name@),
            },
    {
        match self.snapshots.get(name) {
            Some(st) => Some(*st),
            None => None,
        }
    }

    /// The inode under an id, to be saved when it is new.
    pub fn inode(&self, id: u64) -> (r: Option<Arc<Inode>>)
        ensures
            match r {
                Some(inode) => self@.inodes.contains_key(id) && (*inode)@ == self@.inodes[id],
                None => !self@.inodes.contains_key(id),
            },
    {
        match self.inodes.get(&id) {
            Some(inode) => Some(inode.clone()),
            None => None,
        }
    }

    /// Where the blocks stand, in ascending order of their addresses.
    pub fn extents(&self) -> (v: Vec<(crate::blockstore::Hash, Extent)>)
        requires
            self.wf(),
        ensures
            v@.len() == self@.blocks.entries().len(),
            forall|i: int|
                0 <= i < v@.len() ==> ((#[trigger] v@[i]).0@, v@[i].1) == self@.blocks.entries()[i],
    {
        self.blocks.extents()
    }

    /// Where a block stands.
    pub fn extent(&self, hash: &crate::blockstore::Hash) -> (r: Option<Extent>)
        ensures
            match r {
                Some(e) => self@.blocks.index.contains_key(hash@) && e == self@.blocks.index[hash@],
                None => !self@.blocks.index.contains_key(hash@),
            },
    {
        self.blocks.extent(hash)
    }
}

/// The next inode id.
fn next_id(state: &mut SuperBlock) -> (id: u64)
    requires
        old(state).next_inode < u64::MAX,
    ensures
        id == old(state).next_inode,
        *final(state) == (SuperBlock { next_inode: (id + 1) as u64, ..*old(state) }),
{
    let id = state.next_inode;
    state.next_inode = state.next_inode + 1;
    id
}

} // verus!
