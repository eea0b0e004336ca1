//! Filesystem objects.

use vstd::prelude::*;

use crate::sorted::SortedMap;
use crate::tree::InodeModel;

verus! {

/// The addresses that the hashes stand for.
pub open spec fn addresses(blocks: Seq<crate::blockstore::Hash>) -> Seq<Seq<u8>> {
    Seq::new(blocks.len(), |i: int| blocks[i]@)
}

/// A filesystem object. Inodes are immutable once written: every modification
/// allocates a new inode id (copy-on-write), which is what makes snapshots O(1)
/// and crash-consistent: old roots keep pointing at old, untouched inodes.
pub enum Inode {
    File {
        size: u64,
        /// Content-addressed blocks (empty when the file is stored inline).
        blocks: Vec<crate::blockstore::Hash>,
        /// Small-file fast path: the bytes of files at or below the inline
        /// threshold live directly in the inode. Mutually exclusive with
        /// `blocks` being non-empty.
        inline: Vec<u8>,
        mtime: i64,
        mode: u32,
    },
    Dir { entries: SortedMap<String, u64>, mtime: i64 },
}

impl View for Inode {
    type V = InodeModel;

    open spec fn view(&self) -> InodeModel {
        match *self {
            Inode::File { size, blocks, inline, mtime, mode } => InodeModel::File {
                size,
                blocks: addresses(blocks@),
                data: inline@,
                mtime,
                mode,
            },
            Inode::Dir { entries, mtime } => InodeModel::Dir { entries: entries@, mtime },
        }
    }
}

impl Inode {
    pub fn is_dir(&self) -> (r: bool)
        ensures
            r == (self@ is Dir),
    {
        matches!(self, Inode::Dir { .. })
    }

    pub fn kind(&self) -> (r: &'static str)
        ensures
            r@ == kind_text(self@),
    {
        match self {
            Inode::File { .. } => "file",
            Inode::Dir { .. } => "dir",
        }
    }
}

/// What kind of object an inode is.
pub open spec fn kind_text(m: InodeModel) -> Seq<char> {
    match m {
        InodeModel::File { .. } => "file"@,
        InodeModel::Dir { .. } => "dir"@,
    }
}

/// The filesystem's root pointer. Advancing this single value publishes a new
/// consistent view of the entire tree.
#[derive(Debug, Clone, Copy, PartialEq, Eq)]
pub struct SuperBlock {
    pub root: u64,
    pub next_inode: u64,
    pub txg: u64,
}

/// Metadata of a path.
#[derive(Debug, Clone)]
pub struct Stat {
    pub kind: String,
    pub size: u64,
    pub mtime: i64,
    pub blocks: usize,
    pub entries: usize,
}

/// A copy of directory entries.
pub fn copy_entries(entries: &SortedMap<String, u64>) -> (r: SortedMap<String, u64>)
    ensures
        r@ == entries@,
        r.entries() == entries.entries(),
{
    let mut r: SortedMap<String, u64> = SortedMap::new();
    let n: usize = entries.len();
    let mut i: usize = 0;
    let ghost all = entries.entries();
    assert(all.take(0) =~= Seq::empty());
    while i < n
        invariant
            all == entries.entries(),
            crate::sorted::ascending::<String, u64>(all),
            n == all.len(),
            i <= n,
            r.entries() == all.take(i as int),
        decreases n - i,
    {
        let e = entries.entry(i);
        let name = e.0.clone();
        let id: u64 = *e.1;
        let ghost before = r.entries();
        r.insert(name, id);
        proof {
            let e = all[i as int];
            assert(all.take(i + 1) =~= before.push(e));
            crate::sorted::lemma_map_of_push::<String, u64>(before, e);
            crate::sorted::lemma_entries_unique::<String, u64>(r.entries(), all.take(i + 1));
        }
        i = i + 1;
    }
    assert(all.take(i as int) =~= all);
    r
}

} // verus!
