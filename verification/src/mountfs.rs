//! The bookkeeping of a passthrough caching mount.
//!
//! Metadata operations go to a backing directory. File reads go through a
//! strict, frequency-aware RAM cache: once a file has been opened for reading
//! often enough it is pulled wholesale into memory, so that subsequent reads are
//! served without touching disk. Paths are byte strings, and different spellings
//! of a path are the same path (see [`crate::paths`]).

use std::sync::Arc;

use vstd::prelude::*;
use vstd::slice::{slice_subrange, slice_to_vec};

use crate::cache::{lemma_invalidated_is_smaller, CacheModel, RamCache};
use crate::codec::{be64, u64_be};
use crate::paths::{child_path, path_below, path_key, tidy_path};
use crate::sorted::SortedMap;

verus! {

/// The inode number of the root directory.
pub const ROOT_INO: u64 = 1;

/// For how many seconds the kernel may cache attributes and entries.
pub const TTL_SECS: u64 = 5;

/// How many requests the kernel may have in flight in the background.
pub const MAX_BACKGROUND: u16 = 64;

/// Files at or below this size are eligible to be cached whole in RAM.
pub const MAX_CACHE_FILE: u64 = 256 * 1024 * 1024;

/// Open count at which a file is promoted into the RAM cache.
pub const HOT_THRESHOLD: u32 = 2;

/// What kind of object a path leads to.
#[derive(Debug, Clone, Copy, PartialEq, Eq)]
pub enum FileKind {
    Directory,
    Symlink,
    RegularFile,
}

/// What the backing filesystem says of a path.
#[derive(Debug, Clone, Copy)]
pub struct Metadata {
    pub is_dir: bool,
    pub is_symlink: bool,
    pub len: u64,
    pub ctime: i64,
    pub mode: u32,
    pub nlink: u64,
    pub uid: u32,
    pub gid: u32,
    pub rdev: u64,
}

/// The attributes of a path, as far as they are computed here.
#[derive(Debug, Clone, Copy)]
pub struct Attributes {
    pub ino: u64,
    pub size: u64,
    /// In units of 512 bytes.
    pub blocks: u64,
    /// Seconds since the epoch.
    pub ctime: u64,
    pub kind: FileKind,
    pub perm: u16,
    pub nlink: u32,
    pub uid: u32,
    pub gid: u32,
    pub rdev: u32,
}

/// The kind of object that the backing filesystem describes.
pub open spec fn kind_of(is_dir: bool, is_symlink: bool) -> FileKind {
    if is_dir {
        FileKind::Directory
    } else if is_symlink {
        FileKind::Symlink
    } else {
        FileKind::RegularFile
    }
}

pub fn file_kind(is_dir: bool, is_symlink: bool) -> (k: FileKind)
    ensures
        k == kind_of(is_dir, is_symlink),
{
    if is_dir {
        FileKind::Directory
    } else if is_symlink {
        FileKind::Symlink
    } else {
        FileKind::RegularFile
    }
}

/// The attributes `a` are those of an object with the number `ino`.
pub open spec fn shows(a: Attributes, ino: u64, m: Metadata) -> bool {
    &&& a.ino == ino
    &&& a.size == m.len
    &&& a.blocks == (m.len + 511) / 512
    &&& a.ctime == if m.ctime > 0 {
        m.ctime as int
    } else {
        0
    }
    &&& a.kind == kind_of(m.is_dir, m.is_symlink)
    &&& a.perm == m.mode & 0o7777
    &&& a.nlink == m.nlink as u32
    &&& a.uid == m.uid
    &&& a.gid == m.gid
    &&& a.rdev == m.rdev as u32
}

/// The attributes that the mount shows for a path.
pub fn attr_from_meta(ino: u64, m: &Metadata) -> (a: Attributes)
    requires
        m.len + 511 <= u64::MAX,
    ensures
        shows(a, ino, *m),
{
    let mode: u32 = m.mode;
    let bits: u32 = mode & 0o7777;
    assert(bits <= 0o7777) by (bit_vector)
        requires
            bits == mode & 0o7777,
    ;
    Attributes {
        ino,
        size: m.len,
        blocks: (m.len + 511) / 512,
        ctime: if m.ctime > 0 {
            m.ctime as u64
        } else {
            0
        },
        kind: file_kind(m.is_dir, m.is_symlink),
        perm: bits as u16,
        nlink: m.nlink as u32,
        uid: m.uid,
        gid: m.gid,
        rdev: m.rdev as u32,
    }
}

/// The state of a [`PassthroughFs`].
#[verifier::ext_equal]
pub struct MountModel {
    /// The paths by inode number.
    pub paths: Map<u64, Seq<u8>>,
    /// The inode numbers by the shortest spelling of the path.
    pub inos: Map<Seq<u8>, u64>,
    pub next_ino: u64,
    pub next_fh: u64,
    pub cache: CacheModel,
    /// How often files were opened for reading.
    pub freq: Map<u64, u32>,
}

impl MountModel {
    /// The two tables say the same, and numbers that were not given out are
    /// not in them.
    pub open spec fn sound(self) -> bool {
        &&& forall|k: Seq<u8>| #[trigger]
            self.inos.contains_key(k) ==> self.paths.contains_key(self.inos[k]) && path_key(
                self.paths[self.inos[k]],
            ) == k
        &&& forall|i: u64| #[trigger]
            self.paths.contains_key(i) ==> self.inos.contains_key(path_key(self.paths[i]))
                && self.inos[path_key(self.paths[i])] == i && i < self.next_ino
    }

    /// A path has an inode number: the one that it had, or the next one.
    pub open spec fn numbered(self, path: Seq<u8>) -> MountModel {
        if self.inos.contains_key(path_key(path)) {
            self
        } else {
            MountModel {
                paths: self.paths.insert(self.next_ino, path),
                inos: self.inos.insert(path_key(path), self.next_ino),
                next_ino: (self.next_ino + 1) as u64,
                ..self
            }
        }
    }

    /// The inode number of a path: the one that it has, or the next one.
    pub open spec fn number_of(self, path: Seq<u8>) -> u64 {
        if self.inos.contains_key(path_key(path)) {
            self.inos[path_key(path)]
        } else {
            self.next_ino
        }
    }

    /// The path has an inode number.
    pub open spec fn knows(self, path: Seq<u8>) -> bool {
        self.inos.contains_key(path_key(path))
    }

    /// The path of a name in the directory with an inode number.
    pub open spec fn child(self, parent: u64, name: Seq<u8>) -> Option<Seq<u8>> {
        if self.paths.contains_key(parent) {
            Some(path_below(self.paths[parent], name))
        } else {
            None
        }
    }

    /// Everything known of a path forgotten.
    pub open spec fn forgotten(self, path: Seq<u8>) -> MountModel {
        if self.inos.contains_key(path_key(path)) {
            let ino = self.inos[path_key(path)];
            MountModel {
                paths: self.paths.remove(ino),
                inos: self.inos.remove(path_key(path)),
                cache: self.cache.invalidated(be64(ino)),
                freq: self.freq.remove(ino),
                ..self
            }
        } else {
            self
        }
    }

    /// How often a file was opened for reading.
    pub open spec fn opens(self, ino: u64) -> u32 {
        if self.freq.contains_key(ino) {
            self.freq[ino]
        } else {
            0
        }
    }

    /// A file opened: it gets a handle and, where it is opened for reading, one
    /// more open is counted.
    pub open spec fn opened(self, ino: u64, reading: bool) -> MountModel {
        MountModel {
            next_fh: (self.next_fh + 1) as u64,
            freq: if reading {
                self.freq.insert(
                    ino,
                    (if self.opens(ino) < u32::MAX {
                        (self.opens(ino) + 1) as u32
                    } else {
                        u32::MAX
                    }),
                )
            } else {
                self.freq
            },
            ..self
        }
    }

    /// The file is read often enough to be held in RAM, and is not there.
    pub open spec fn hot(self, ino: u64) -> bool {
        self.opens(ino) >= HOT_THRESHOLD && !self.cache.contains(be64(ino))
    }

    /// A file written: the cached copy and the count are stale.
    pub open spec fn written(self, ino: u64) -> MountModel {
        MountModel {
            cache: self.cache.invalidated(be64(ino)),
            freq: self.freq.remove(ino),
            ..self
        }
    }
}

/// The bytes from `offset` on, at most `size` of them.
pub open spec fn slice_of(data: Seq<u8>, offset: int, size: int) -> Seq<u8> {
    if offset >= data.len() {
        Seq::empty()
    } else if offset + size <= data.len() {
        data.subrange(offset, offset + size)
    } else {
        data.skip(offset)
    }
}

/// What a look-up gives.
pub struct Entry {
    pub attributes: Attributes,
    /// For how many seconds the kernel may cache it.
    pub ttl_secs: u64,
}

/// Where the bytes of a read come from.
pub enum ReadSource {
    /// The whole file is in RAM: these are the bytes.
    Cached(Vec<u8>),
    /// They are to be read from this path of the backing directory.
    Backing(Vec<u8>),
    /// There is no such file.
    Unknown,
}

/// The bookkeeping of a passthrough caching mount.
pub struct PassthroughFs {
    ino_to_path: SortedMap<u64, Vec<u8>>,
    path_to_ino: SortedMap<Vec<u8>, u64>,
    next_ino: u64,
    next_fh: u64,
    cache: RamCache,
    freq: SortedMap<u64, u32>,
}

/// What the byte vectors hold.
pub open spec fn path_bytes(m: Map<u64, Vec<u8>>) -> Map<u64, Seq<u8>> {
    Map::new(|i: u64| m.contains_key(i), |i: u64| m[i]@)
}

impl View for PassthroughFs {
    type V = MountModel;

    closed spec fn view(&self) -> MountModel {
        MountModel {
            paths: path_bytes(self.ino_to_path@),
            inos: self.path_to_ino@,
            next_ino: self.next_ino,
            next_fh: self.next_fh,
            cache: self.cache@,
            freq: self.freq@,
        }
    }
}

fn ino_key(ino: u64) -> (k: Vec<u8>)
    ensures
        k@ == be64(ino),
{
    let b = u64_be(ino);
    slice_to_vec(b.as_slice())
}

impl PassthroughFs {
    pub closed spec fn wf(&self) -> bool {
        &&& self@.sound()
        &&& self.cache.wf()
    }

    /// What [`PassthroughFs::wf`] says of the state.
    pub proof fn lemma_wf(&self)
        requires
            self.wf(),
        ensures
            self@.sound(),
            self@.cache.keys_distinct(),
            self@.cache.resident() <= self@.cache.cap,
    {
        self.cache.lemma_wf();
    }

    /// A mount over a backing directory, which is the root.
    pub fn new(backing: &[u8], cache_bytes: u64) -> (fs: PassthroughFs)
        ensures
            fs.wf(),
            fs@ == (MountModel {
                paths: Map::empty().insert(ROOT_INO, backing@),
                inos: Map::empty().insert(path_key(backing@), ROOT_INO),
                next_ino: 2,
                next_fh: 1,
                cache: CacheModel::empty(cache_bytes),
                freq: Map::empty(),
            }),
    {
        let mut ino_to_path: SortedMap<u64, Vec<u8>> = SortedMap::new();
        let mut path_to_ino: SortedMap<Vec<u8>, u64> = SortedMap::new();
        ino_to_path.insert(ROOT_INO, slice_to_vec(backing));
        path_to_ino.insert(tidy_path(backing), ROOT_INO);
        let fs = PassthroughFs {
            ino_to_path,
            path_to_ino,
            next_ino: 2,
            next_fh: 1,
            cache: RamCache::new(cache_bytes),
            freq: SortedMap::new(),
        };
        assert(fs@.paths =~= Map::empty().insert(ROOT_INO, backing@));
        assert(fs@ =~= (MountModel {
            paths: Map::empty().insert(ROOT_INO, backing@),
            inos: Map::empty().insert(path_key(backing@), ROOT_INO),
            next_ino: 2,
            next_fh: 1,
            cache: CacheModel::empty(cache_bytes),
            freq: Map::empty(),
        }));
        fs
    }

    /// Whether there is a next inode number and a next handle.
    pub fn numbers_left(&self) -> (r: bool)
        ensures
            r == (self@.next_ino < u64::MAX && self@.next_fh < u64::MAX),
    {
        self.next_ino < u64::MAX && self.next_fh < u64::MAX
    }

    /// The inode number of a path, which gets one where it has none.
    pub fn ino_for(&mut self, path: &[u8]) -> (ino: u64)
        requires
            old(self).wf(),
            old(self)@.next_ino < u64::MAX,
        ensures
            final(self).wf(),
            final(self)@ == old(self)@.numbered(path@),
            ino == old(self)@.number_of(path@),
            final(self)@ == old(self)@.after((MountCall::Number { path: path@ })),
    {
        let key = tidy_path(path);
        if let Some(i) = self.path_to_ino.get(&key) {
            return *i;
        }
        let i = self.next_ino;
        self.next_ino = self.next_ino + 1;
        self.ino_to_path.insert(i, slice_to_vec(path));
        self.path_to_ino.insert(key, i);
        proof {
            assert(self@.paths =~= old(self)@.paths.insert(i, path@));
            assert(self@ =~= old(self)@.numbered(path@));
        }
        i
    }

    /// The path with an inode number.
    pub fn path_of(&self, ino: u64) -> (r: Option<Vec<u8>>)
        ensures
            match r {
                Some(p) => self@.paths.contains_key(ino) && p@ == self@.paths[ino],
                None => !self@.paths.contains_key(ino),
            },
    {
        match self.ino_to_path.get(&ino) {
            Some(p) => Some(slice_to_vec(p.as_slice())),
            None => None,
        }
    }

    /// The path of a name in the directory with an inode number.
    pub fn child_of(&self, parent: u64, name: &[u8]) -> (r: Option<Vec<u8>>)
        ensures
            match r {
                Some(p) => self@.child(parent, name@) == Some(p@),
                None => self@.child(parent, name@) is None,
            },
    {
        match self.ino_to_path.get(&parent) {
            Some(dir) => Some(child_path(dir.as_slice(), name)),
            None => None,
        }
    }

    /// Answers a look-up of a name in a directory. `found` is what the backing
    /// filesystem says of [`PassthroughFs::child_of`], where that exists.
    pub fn lookup(&mut self, parent: u64, name: &[u8], found: Option<Metadata>) -> (r: Option<Entry>)
        requires
            old(self).wf(),
            old(self)@.next_ino < u64::MAX,
            found matches Some(m) ==> m.len + 511 <= u64::MAX,
        ensures
            final(self).wf(),
            match (old(self)@.child(parent, name@), found) {
                (Some(p), Some(m)) => {
                    &&& final(self)@ == old(self)@.numbered(p)
                    &&& r matches Some(e) && e.ttl_secs == TTL_SECS && shows(
                        e.attributes,
                        old(self)@.number_of(p),
                        m,
                    )
                },
                _ => r is None && final(self)@ == old(self)@,
            },
            final(self)@ == old(self)@.after(
                (MountCall::Lookup { parent, name: name@, found: found is Some }),
            ),
    {
        match (self.child_of(parent, name), found) {
            (Some(p), Some(m)) => {
                let ino = self.ino_for(p.as_slice());
                Some(Entry { attributes: attr_from_meta(ino, &m), ttl_secs: TTL_SECS })
            },
            _ => None,
        }
    }

    /// Forgets a path: its inode number, its cached content and its count.
    pub fn forget_path(&mut self, path: &[u8])
        requires
            old(self).wf(),
        ensures
            final(self).wf(),
            final(self)@ == old(self)@.forgotten(path@),
            final(self)@ == old(self)@.after((MountCall::Forget { path: path@ })),
    {
        let key = tidy_path(path);
        match self.path_to_ino.remove(&key) {
            Some(ino) => {
                let _ = self.ino_to_path.remove(&ino);
                self.cache.invalidate(ino_key(ino).as_slice());
                let _ = self.freq.remove(&ino);
                proof {
                    assert(self@.paths =~= old(self)@.paths.remove(ino));
                    assert(self@ =~= old(self)@.forgotten(path@));
                }
            },
            None => {
                assert(self@ =~= old(self)@);
            },
        }
    }

    /// A handle for a file that was opened, and whether its content is to be
    /// pulled into RAM. Frequency accounting is per open.
    pub fn open_handle(&mut self, ino: u64, reading: bool) -> (r: (u64, bool))
        requires
            old(self).wf(),
            old(self)@.next_fh < u64::MAX,
        ensures
            final(self).wf(),
            final(self)@ == old(self)@.opened(ino, reading),
            r.0 == old(self)@.next_fh,
            r.1 == (reading && final(self)@.hot(ino)),
            final(self)@ == old(self)@.after((MountCall::Open { ino, reading })),
    {
        let fh = self.next_fh;
        self.next_fh = self.next_fh + 1;
        if !reading {
            assert(self@ =~= old(self)@.opened(ino, reading));
            return (fh, false);
        }
        let n: u32 = match self.freq.get(&ino) {
            Some(n) => *n,
            None => 0,
        };
        let n: u32 = if n < u32::MAX {
            n + 1
        } else {
            n
        };
        self.freq.insert(ino, n);
        assert(self@ =~= old(self)@.opened(ino, reading));
        let hot = n >= HOT_THRESHOLD && !self.cache.contains(ino_key(ino).as_slice());
        (fh, hot)
    }

    /// Whether the byte count of the cache has room for `len` more.
    pub fn has_room(&self, len: u64) -> (r: bool)
        requires
            self.wf(),
        ensures
            r == (self@.cache.resident() + len <= u64::MAX),
            r ==> forall|ino: u64| #[trigger]
                self@.cache.invalidated(be64(ino)).resident() + len <= u64::MAX,
    {
        proof {
            self.cache.lemma_wf();
            assert forall|ino: u64| #[trigger]
                self@.cache.invalidated(be64(ino)).resident() <= self@.cache.resident() by {
                lemma_invalidated_is_smaller(self@.cache, be64(ino));
            }
        }
        len <= u64::MAX - self.cache.stats().resident_bytes
    }

    /// Whether a file of this size may be held in RAM.
    pub fn cacheable(len: u64) -> (r: bool)
        ensures
            r == (len <= MAX_CACHE_FILE),
    {
        len <= MAX_CACHE_FILE
    }

    /// Holds the content of a file in RAM.
    pub fn load(&mut self, ino: u64, content: Vec<u8>)
        requires
            old(self).wf(),
            old(self)@.cache.invalidated(be64(ino)).resident() + content@.len() <= u64::MAX,
        ensures
            final(self).wf(),
            final(self)@ == (MountModel {
                cache: old(self)@.cache.inserted(be64(ino), content@),
                ..old(self)@
            }),
            final(self)@ == old(self)@.after((MountCall::Load { ino, content: content@ })),
    {
        self.cache.insert(ino_key(ino), Arc::new(content));
    }

    /// A handle and an inode number for a file that was created.
    pub fn created(&mut self, path: &[u8]) -> (r: (u64, u64))
        requires
            old(self).wf(),
            old(self)@.next_ino < u64::MAX,
            old(self)@.next_fh < u64::MAX,
        ensures
            final(self).wf(),
            r.0 == old(self)@.number_of(path@),
            r.1 == old(self)@.next_fh,
            final(self)@ == ({
                let m = old(self)@.numbered(path@);
                MountModel {
                    next_fh: (m.next_fh + 1) as u64,
                    cache: m.cache.invalidated(be64(r.0)),
                    ..m
                }
            }),
            final(self)@ == old(self)@.after((MountCall::Create { path: path@ })),
    {
        let ino = self.ino_for(path);
        let fh = self.next_fh;
        self.next_fh = self.next_fh + 1;
        self.cache.invalidate(ino_key(ino).as_slice());
        (ino, fh)
    }

    /// Where the bytes of a read come from. A negative offset counts as 0.
    pub fn read(&mut self, ino: u64, offset: i64, size: u32) -> (r: ReadSource)
        requires
            old(self).wf(),
        ensures
            final(self).wf(),
            final(self)@ == (MountModel {
                cache: old(self)@.cache.looked_up(be64(ino)),
                ..old(self)@
            }),
            ({
                let from = if offset > 0 {
                    offset as int
                } else {
                    0
                };
                match old(self)@.cache.lookup(be64(ino)) {
                    Some(data) => r matches ReadSource::Cached(v) && v@ == slice_of(
                        data,
                        from,
                        size as int,
                    ),
                    None => if old(self)@.paths.contains_key(ino) {
                        r matches ReadSource::Backing(p) && p@ == old(self)@.paths[ino]
                    } else {
                        r is Unknown
                    },
                }
            }),
            final(self)@ == old(self)@.after((MountCall::Read { ino })),
    {
        let from: u64 = if offset > 0 {
            offset as u64
        } else {
            0
        };
        if let Some(buf) = self.cache.get(ino_key(ino).as_slice()) {
            let n: usize = buf.len();
            if from >= n as u64 {
                return ReadSource::Cached(Vec::new());
            }
            let start: usize = from as usize;
            let end: usize = if size as u64 >= (n - start) as u64 {
                n
            } else {
                start + size as usize
            };
            let part = slice_subrange(buf.as_slice(), start, end);
            assert(buf@.subrange(start as int, n as int) =~= buf@.skip(start as int));
            return ReadSource::Cached(slice_to_vec(part));
        }
        match self.path_of(ino) {
            Some(p) => ReadSource::Backing(p),
            None => ReadSource::Unknown,
        }
    }

    /// A file was written: the cached copy is stale.
    pub fn wrote(&mut self, ino: u64)
        requires
            old(self).wf(),
        ensures
            final(self).wf(),
            final(self)@ == old(self)@.written(ino),
            final(self)@ == old(self)@.after((MountCall::Write { ino })),
    {
        self.cache.invalidate(ino_key(ino).as_slice());
        let _ = self.freq.remove(&ino);
        assert(self@ =~= old(self)@.written(ino));
    }

    /// A file was resized: the cached copy is stale.
    pub fn resized(&mut self, ino: u64)
        requires
            old(self).wf(),
        ensures
            final(self).wf(),
            final(self)@ == (MountModel {
                cache: old(self)@.cache.invalidated(be64(ino)),
                ..old(self)@
            }),
            final(self)@ == old(self)@.after((MountCall::Resize { ino })),
    {
        self.cache.invalidate(ino_key(ino).as_slice());
        assert(self@.paths == old(self)@.paths && self@.inos == old(self)@.inos);
    }

    /// A path was renamed: what was known of both names is forgotten.
    pub fn renamed(&mut self, from: &[u8], to: &[u8])
        requires
            old(self).wf(),
        ensures
            final(self).wf(),
            final(self)@ == old(self)@.forgotten(from@).forgotten(to@),
            final(self)@ == old(self)@.after((MountCall::Rename { from: from@, to: to@ })),
    {
        self.forget_path(from);
        self.forget_path(to);
    }
}

/// An entry of a directory as the mount shows it.
pub struct DirEntry {
    pub ino: u64,
    /// Where the listing goes on behind this entry.
    pub next: i64,
    pub kind: FileKind,
    pub name: String,
}

/// What an entry says.
pub open spec fn dir_entry(e: DirEntry) -> (u64, int, FileKind, Seq<char>) {
    (e.ino, e.next as int, e.kind, e.name@)
}

/// The whole listing of a directory: itself, its parent, which is shown with
/// the same number, and its children.
pub open spec fn full_listing(ino: u64, children: Seq<(u64, FileKind, String)>) -> Seq<
    (u64, FileKind, Seq<char>),
> {
    seq![(ino, FileKind::Directory, "."@), (ino, FileKind::Directory, ".."@)] + Seq::new(
        children.len(),
        |i: int| (children[i].0, children[i].1, children[i].2@),
    )
}

/// The listing of a directory from `offset` on.
pub fn dir_page(ino: u64, children: &Vec<(u64, FileKind, String)>, offset: u64) -> (v: Vec<DirEntry>)
    requires
        children@.len() + 2 <= i64::MAX,
    ensures
        ({
            let all = full_listing(ino, children@);
            if offset >= all.len() {
                v@.len() == 0
            } else {
                &&& v@.len() == all.len() - offset
                &&& forall|j: int|
                    0 <= j < v@.len() ==> dir_entry(#[trigger] v@[j]) == (
                        all[offset + j].0,
                        offset + j + 1,
                        all[offset + j].1,
                        all[offset + j].2,
                    )
            }
        }),
{
    let ghost all = full_listing(ino, children@);
    let n: u64 = children.len() as u64 + 2;
    let mut v: Vec<DirEntry> = Vec::new();
    let mut i: u64 = offset;
    while i < n
        invariant
            n == children@.len() + 2,
            n <= i64::MAX,
            all == full_listing(ino, children@),
            offset <= i,
            i <= n || v@.len() == 0,
            offset < n ==> v@.len() == i - offset,
            offset >= n ==> i == offset && v@.len() == 0,
            forall|j: int|
                0 <= j < v@.len() ==> dir_entry(#[trigger] v@[j]) == (
                    all[offset + j].0,
                    offset + j + 1,
                    all[offset + j].1,
                    all[offset + j].2,
                ),
        decreases n - i,
    {
        let (child, kind, name) = if i == 0 {
            (ino, FileKind::Directory, ".".to_owned())
        } else if i == 1 {
            (ino, FileKind::Directory, "..".to_owned())
        } else {
            assert(i - 2 < children.len());
            let k: usize = (i - 2) as usize;
            assert(all[i as int] == (children@[k as int].0, children@[k as int].1, children@[
                k as int
            ].2@));
            (children[k].0, children[k].1, children[k].2.clone())
        };
        assert(all[i as int] == (child, kind, name@));
        v.push(DirEntry { ino: child, next: (i + 1) as i64, kind, name });
        i = i + 1;
    }
    v
}

/// A path keeps its inode number until it is forgotten, and no other path has
/// it.
pub proof fn law_inode_numbers_are_stable(m: MountModel, path: Seq<u8>, other: Seq<u8>)
    requires
        m.sound(),
        m.next_ino < u64::MAX,
        path_key(path) != path_key(other),
    ensures
        m.numbered(path).sound(),
        m.numbered(path).number_of(path) == m.number_of(path),
        m.knows(other) ==> m.numbered(path).number_of(other) == m.number_of(other) && m.number_of(
            other,
        ) != m.number_of(path),
{
    lemma_numbered_is_sound(m, path);
    if m.knows(other) {
        assert(m.paths.contains_key(m.number_of(other)));
    }
}

/// A call that changes the bookkeeping.
pub enum MountCall {
    Number { path: Seq<u8> },
    Lookup { parent: u64, name: Seq<u8>, found: bool },
    Forget { path: Seq<u8> },
    Open { ino: u64, reading: bool },
    Load { ino: u64, content: Seq<u8> },
    Create { path: Seq<u8> },
    Read { ino: u64 },
    Write { ino: u64 },
    Resize { ino: u64 },
    Rename { from: Seq<u8>, to: Seq<u8> },
}

impl MountCall {
    /// The call lets go of a path.
    pub open spec fn lets_go(self, path: Seq<u8>) -> bool {
        match self {
            MountCall::Forget { path: p } => path_key(p) == path_key(path),
            MountCall::Rename { from, to } => path_key(from) == path_key(path) || path_key(to)
                == path_key(path),
            _ => false,
        }
    }
}

impl MountModel {
    /// The state after a call of the method of [`PassthroughFs`] that it stands
    /// for.
    pub open spec fn after(self, call: MountCall) -> MountModel {
        match call {
            MountCall::Number { path } => self.numbered(path),
            MountCall::Lookup { parent, name, found } => match self.child(parent, name) {
                Some(p) => if found {
                    self.numbered(p)
                } else {
                    self
                },
                None => self,
            },
            MountCall::Forget { path } => self.forgotten(path),
            MountCall::Open { ino, reading } => self.opened(ino, reading),
            MountCall::Load { ino, content } => MountModel {
                cache: self.cache.inserted(be64(ino), content),
                ..self
            },
            MountCall::Create { path } => {
                let m = self.numbered(path);
                MountModel {
                    next_fh: (m.next_fh + 1) as u64,
                    cache: m.cache.invalidated(be64(self.number_of(path))),
                    ..m
                }
            },
            MountCall::Read { ino } => MountModel {
                cache: self.cache.looked_up(be64(ino)),
                ..self
            },
            MountCall::Write { ino } => self.written(ino),
            MountCall::Resize { ino } => MountModel {
                cache: self.cache.invalidated(be64(ino)),
                ..self
            },
            MountCall::Rename { from, to } => self.forgotten(from).forgotten(to),
        }
    }

    /// The state after a sequence of calls.
    pub open spec fn after_all(self, calls: Seq<MountCall>) -> MountModel
        decreases calls.len(),
    {
        if calls.len() == 0 {
            self
        } else {
            self.after_all(calls.drop_last()).after(calls.last())
        }
    }
}

/// Whatever calls are made, no two paths share a number, a number never passes
/// from one path to another, and a path that no call lets go of keeps its
/// number.
pub proof fn law_numbers_are_stable_over_calls(
    m: MountModel,
    calls: Seq<MountCall>,
    path: Seq<u8>,
)
    requires
        m.sound(),
        m.next_ino + calls.len() <= u64::MAX,
    ensures
        ({
            let later = m.after_all(calls);
            &&& later.sound()
            &&& m.next_ino <= later.next_ino <= m.next_ino + calls.len()
            &&& forall|i: u64| #[trigger]
                later.paths.contains_key(i) && i < m.next_ino ==> m.paths.contains_key(i)
                    && later.paths[i] == m.paths[i]
            &&& m.knows(path) && (forall|j: int|
                0 <= j < calls.len() ==> !(#[trigger] calls[j]).lets_go(path)) ==> later.knows(path)
                && later.number_of(path) == m.number_of(path)
        }),
    decreases calls.len(),
{
    if calls.len() > 0 {
        let before = calls.drop_last();
        law_numbers_are_stable_over_calls(m, before, path);
        let mid = m.after_all(before);
        let later = m.after_all(calls);
        let call = calls.last();
        match call {
            MountCall::Number { path: p } | MountCall::Create { path: p } => {
                lemma_numbered_is_sound(mid, p);
            },
            MountCall::Lookup { parent, name, found } => {
                if mid.child(parent, name) is Some {
                    lemma_numbered_is_sound(mid, mid.child(parent, name).unwrap());
                }
            },
            MountCall::Forget { path: p } => {
                lemma_forgotten_is_sound(mid, p);
            },
            MountCall::Rename { from, to } => {
                lemma_forgotten_is_sound(mid, from);
                lemma_forgotten_is_sound(mid.forgotten(from), to);
            },
            _ => {},
        }
        if forall|j: int| 0 <= j < calls.len() ==> !(#[trigger] calls[j]).lets_go(path) {
            assert forall|j: int| 0 <= j < before.len() implies !(#[trigger] before[j]).lets_go(
                path,
            ) by {
                assert(!calls[j].lets_go(path));
            }
            assert(!calls[calls.len() - 1].lets_go(path));
        }
    }
}

proof fn lemma_numbered_is_sound(m: MountModel, path: Seq<u8>)
    requires
        m.sound(),
        m.next_ino < u64::MAX,
    ensures
        m.numbered(path).sound(),
{
    let after = m.numbered(path);
    if !m.knows(path) {
        assert forall|k: Seq<u8>| #[trigger] after.inos.contains_key(
            k,
        ) implies after.paths.contains_key(after.inos[k]) && path_key(after.paths[after.inos[k]])
            == k by {
            if k != path_key(path) {
                assert(m.inos.contains_key(k));
            }
        }
    }
}

proof fn lemma_forgotten_is_sound(m: MountModel, path: Seq<u8>)
    requires
        m.sound(),
    ensures
        m.forgotten(path).sound(),
        forall|k: Seq<u8>| #[trigger]
            m.inos.contains_key(k) && k != path_key(path) ==> m.forgotten(path).inos.contains_key(k)
                && m.forgotten(path).inos[k] == m.inos[k],
{
    let after = m.forgotten(path);
    assert forall|k: Seq<u8>| #[trigger] after.inos.contains_key(k) implies after.paths.contains_key(
        after.inos[k],
    ) && path_key(after.paths[after.inos[k]]) == k by {
        assert(m.inos.contains_key(k));
    }
}

/// A look-up of a child gives the number that an earlier one gave, whatever
/// calls came in between, unless one let go of the child or of its directory.
pub proof fn law_lookup_gives_the_same_number(
    m: MountModel,
    parent: u64,
    name: Seq<u8>,
    calls: Seq<MountCall>,
)
    requires
        m.sound(),
        m.next_ino + calls.len() + 1 <= u64::MAX,
        m.child(parent, name) is Some,
        forall|j: int|
            0 <= j < calls.len() ==> !(#[trigger] calls[j]).lets_go(m.child(parent, name).unwrap())
                && !calls[j].lets_go(m.paths[parent]),
    ensures
        ({
            let p = m.child(parent, name).unwrap();
            let later = m.after(
                MountCall::Lookup { parent, name, found: true },
            ).after_all(calls);
            later.child(parent, name) == Some(p) && later.number_of(p) == m.number_of(p)
        }),
{
    let p = m.child(parent, name).unwrap();
    let dir = m.paths[parent];
    let first = m.after(MountCall::Lookup { parent, name, found: true });
    lemma_numbered_is_sound(m, p);
    law_numbers_are_stable_over_calls(first, calls, p);
    law_numbers_are_stable_over_calls(first, calls, dir);
    let later = first.after_all(calls);
    assert(m.paths.contains_key(parent));
    assert(first.paths.contains_key(parent) && first.paths[parent] == dir);
    assert(first.knows(dir) && first.number_of(dir) == parent);
    assert(later.knows(dir));
    assert(later.paths.contains_key(parent));
    assert(later.paths[parent] == dir);
}

/// A file that was written or resized is not served from the cache until it is
/// loaded again.
pub proof fn law_no_stale_reads(m: MountModel, ino: u64)
    requires
        m.cache.keys_distinct(),
    ensures
        m.cache.invalidated(be64(ino)).lookup(be64(ino)) is None,
        m.written(ino).cache == m.cache.invalidated(be64(ino)),
        m.written(ino).opens(ino) == 0,
{
    crate::cache::lemma_invalidated_gone(m.cache, be64(ino));
}

/// A file is pulled into RAM at its second open for reading, and not at its
/// first.
pub proof fn law_second_open_is_hot(m: MountModel, ino: u64)
    requires
        m.opens(ino) == 0,
        !m.cache.contains(be64(ino)),
    ensures
        !m.opened(ino, true).hot(ino),
        m.opened(ino, true).opened(ino, true).hot(ino),
{
}

} // verus!
