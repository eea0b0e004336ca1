//! An in-memory filesystem behind a drive letter.
//!
//! Paths are written as the driver hands them over: `\` is the root, `\a` an
//! entry of it, `\a\b` an entry of `\a`.

use vstd::prelude::*;
use vstd::slice::{slice_subrange, slice_to_vec};

use crate::order::OrderedKey;
use crate::sorted::{
    ascending, entries_of, lemma_entries_unique, lemma_finite_map_has_entries, lemma_map_of_entry,
    lemma_map_of_key, map_of, SortedMap,
};
use crate::text::{chars_of, text_of};

verus! {

pub const FILE_ATTRIBUTE_DIRECTORY: u32 = 0x10;

pub const FILE_ATTRIBUTE_ARCHIVE: u32 = 0x20;

pub const FILE_DIRECTORY_FILE: u32 = 0x0000_0001;

/// The nominal size of the volume: 4 GiB.
pub const VOLUME_SIZE: u64 = 0x1_0000_0000;

/// The difference between the two epochs, in units of 100 ns: 1601 is
/// 11644473600 seconds before 1970.
pub const FILETIME_EPOCH: u64 = 116_444_736_000_000_000;

/// Why an operation was refused.
#[derive(Debug, Clone, Copy, PartialEq, Eq)]
pub enum Status {
    ObjectNameNotFound,
    ObjectNameCollision,
    AccessDenied,
    EndOfFile,
}

/// A time in nanoseconds since 1970 as the driver writes it.
pub fn filetime(nanos: u128) -> (t: u64)
    requires
        nanos / 100 + FILETIME_EPOCH <= u64::MAX,
    ensures
        t == nanos / 100 + FILETIME_EPOCH,
{
    (nanos / 100) as u64 + FILETIME_EPOCH
}

/// A file or directory.
pub struct Node {
    pub is_dir: bool,
    pub attributes: u32,
    pub data: Vec<u8>,
    pub creation_time: u64,
    pub last_access_time: u64,
    pub last_write_time: u64,
    pub change_time: u64,
    pub index_number: u64,
}

/// What a [`Node`] holds.
#[verifier::ext_equal]
pub struct NodeModel {
    pub is_dir: bool,
    pub attributes: u32,
    pub data: Seq<u8>,
    pub creation_time: u64,
    pub last_access_time: u64,
    pub last_write_time: u64,
    pub change_time: u64,
    pub index_number: u64,
}

impl View for Node {
    type V = NodeModel;

    open spec fn view(&self) -> NodeModel {
        NodeModel {
            is_dir: self.is_dir,
            attributes: self.attributes,
            data: self.data@,
            creation_time: self.creation_time,
            last_access_time: self.last_access_time,
            last_write_time: self.last_write_time,
            change_time: self.change_time,
            index_number: self.index_number,
        }
    }
}

/// What the driver is told of a node.
#[derive(Debug, Clone, Copy, PartialEq, Eq)]
pub struct FileInfo {
    pub file_attributes: u32,
    pub allocation_size: u64,
    pub file_size: u64,
    pub creation_time: u64,
    pub last_access_time: u64,
    pub last_write_time: u64,
    pub change_time: u64,
    pub index_number: u64,
}

/// A size in whole pages of 4 KiB.
pub open spec fn in_pages(len: int) -> int {
    (len + 4095) / 4096 * 4096
}

/// What the driver is told of a node.
pub open spec fn info_of(n: NodeModel) -> FileInfo {
    FileInfo {
        file_attributes: n.attributes,
        allocation_size: in_pages(n.data.len() as int) as u64,
        file_size: n.data.len() as u64,
        creation_time: n.creation_time,
        last_access_time: n.last_access_time,
        last_write_time: n.last_write_time,
        change_time: n.change_time,
        index_number: n.index_number,
    }
}

impl Node {
    pub fn file_info(&self) -> (fi: FileInfo)
        requires
            self@.data.len() + 4095 <= u64::MAX,
        ensures
            fi == info_of(self@),
    {
        FileInfo {
            file_attributes: self.attributes,
            allocation_size: (self.data.len() as u64 + 4095) / 4096 * 4096,
            file_size: self.data.len() as u64,
            creation_time: self.creation_time,
            last_access_time: self.last_access_time,
            last_write_time: self.last_write_time,
            change_time: self.change_time,
            index_number: self.index_number,
        }
    }
}

/// The last backslash among the first `n` characters; -1 where there is none.
pub open spec fn last_backslash(s: Seq<char>, n: int) -> int
    decreases n,
{
    if n <= 0 {
        -1
    } else if s[n - 1] == '\\' {
        n - 1
    } else {
        last_backslash(s, n - 1)
    }
}

/// The path of the root.
pub open spec fn root_path() -> Seq<char> {
    seq!['\\']
}

/// The directory in which a path stands; the root stands in itself.
pub open spec fn parent_path(key: Seq<char>) -> Seq<char> {
    let i = last_backslash(key, key.len() as int);
    if i <= 0 {
        root_path()
    } else {
        key.take(i)
    }
}

/// The name of a path in its directory.
pub open spec fn base_name(key: Seq<char>) -> Seq<char> {
    key.skip(last_backslash(key, key.len() as int) + 1)
}

fn find_backslash(v: &Vec<char>) -> (r: Option<usize>)
    ensures
        match r {
            Some(i) => i == last_backslash(v@, v@.len() as int) && i < v@.len(),
            None => last_backslash(v@, v@.len() as int) == -1,
        },
{
    let mut n: usize = v.len();
    while n > 0
        invariant
            n <= v@.len(),
            last_backslash(v@, v@.len() as int) == last_backslash(v@, n as int),
        decreases n,
    {
        if v[n - 1] == '\\' {
            return Some(n - 1);
        }
        n = n - 1;
    }
    None
}

/// The text of the root.
fn root_text() -> (s: String)
    ensures
        s@ == root_path(),
{
    let mut s = String::new();
    s.push('\\');
    assert(s@ =~= root_path());
    s
}

pub fn parent_of(key: &str) -> (s: String)
    ensures
        s@ == parent_path(key@),
{
    let v = chars_of(key);
    match find_backslash(&v) {
        Some(i) => if i == 0 {
            root_text()
        } else {
            assert(v@.subrange(0, i as int) =~= v@.take(i as int));
            text_of(&v, 0, i)
        },
        None => root_text(),
    }
}

pub fn basename_of(key: &str) -> (s: String)
    ensures
        s@ == base_name(key@),
{
    let v = chars_of(key);
    match find_backslash(&v) {
        Some(i) => {
            assert(i < v.len());
            assert(v@.subrange(i + 1, v@.len() as int) =~= v@.skip(i + 1));
            text_of(&v, i + 1, v.len())
        },
        None => {
            assert(key@.skip(0) =~= key@);
            key.to_owned()
        },
    }
}

/// The key of a path: an empty one is the root.
pub fn key_of(name: &str) -> (s: String)
    ensures
        s@ == if name@.len() == 0 {
            root_path()
        } else {
            name@
        },
{
    if name.is_empty() {
        assert(name@.len() == 0);
        root_text()
    } else {
        name.to_owned()
    }
}

/// What the nodes hold.
pub open spec fn node_map(m: Map<Seq<char>, Node>) -> Map<Seq<char>, NodeModel> {
    Map::new(|k: Seq<char>| m.contains_key(k), |k: Seq<char>| m[k]@)
}

/// The state of a [`NeuralWinFsContext`].
#[verifier::ext_equal]
pub struct VolumeModel {
    pub nodes: Map<Seq<char>, NodeModel>,
    pub next_index: u64,
}

/// `k` stands in the directory `dir`.
pub open spec fn is_child(k: Seq<char>, dir: Seq<char>) -> bool {
    k != dir && parent_path(k) == dir
}

impl VolumeModel {
    /// A volume with an empty root.
    pub open spec fn fresh(now: u64) -> VolumeModel {
        VolumeModel {
            nodes: Map::empty().insert(
                root_path(),
                NodeModel {
                    is_dir: true,
                    attributes: FILE_ATTRIBUTE_DIRECTORY,
                    data: Seq::empty(),
                    creation_time: now,
                    last_access_time: now,
                    last_write_time: now,
                    change_time: now,
                    index_number: 1,
                },
            ),
            next_index: 2,
        }
    }

    /// A new node.
    pub open spec fn new_node(self, is_dir: bool, attributes: u32, now: u64) -> NodeModel {
        NodeModel {
            is_dir,
            attributes: if is_dir {
                FILE_ATTRIBUTE_DIRECTORY
            } else {
                (attributes & !FILE_ATTRIBUTE_DIRECTORY) | FILE_ATTRIBUTE_ARCHIVE
            },
            data: Seq::empty(),
            creation_time: now,
            last_access_time: now,
            last_write_time: now,
            change_time: now,
            index_number: self.next_index,
        }
    }

    /// Some node stands in the directory `key`.
    pub open spec fn has_child(self, key: Seq<char>) -> bool {
        exists|k: Seq<char>| #[trigger] self.nodes.contains_key(k) && is_child(k, key)
    }

    /// The node under `key` replaced.
    pub open spec fn with_node(self, key: Seq<char>, n: NodeModel) -> VolumeModel {
        VolumeModel { nodes: self.nodes.insert(key, n), ..self }
    }

    /// What opening `key` tells.
    pub open spec fn opening(self, key: Seq<char>) -> Result<FileInfo, Status> {
        if self.nodes.contains_key(key) {
            Ok(info_of(self.nodes[key]))
        } else {
            Err(Status::ObjectNameNotFound)
        }
    }

    /// The bytes that a read of `key` gives.
    pub open spec fn content(self, key: Seq<char>, offset: int, size: int) -> Result<
        Seq<u8>,
        Status,
    > {
        if !self.nodes.contains_key(key) {
            Err(Status::ObjectNameNotFound)
        } else if offset >= self.nodes[key].data.len() {
            Err(Status::EndOfFile)
        } else {
            Ok(crate::mountfs::slice_of(self.nodes[key].data, offset, size))
        }
    }

    /// The volume after creating `key`, and what is told of the new node.
    pub open spec fn created(
        self,
        key: Seq<char>,
        create_options: u32,
        file_attributes: u32,
        now: u64,
    ) -> (VolumeModel, Result<FileInfo, Status>) {
        let parent = parent_path(key);
        if self.nodes.contains_key(key) {
            (self, Err(Status::ObjectNameCollision))
        } else if self.nodes.contains_key(parent) && self.nodes[parent].is_dir {
            let n = self.new_node(create_options & FILE_DIRECTORY_FILE != 0, file_attributes, now);
            let next_index = (self.next_index + 1) as u64;
            (VolumeModel { nodes: self.nodes.insert(key, n), next_index }, Ok(info_of(n)))
        } else {
            (self, Err(Status::ObjectNameNotFound))
        }
    }

    /// The volume after deleting `key`, which stays where it has children.
    pub open spec fn deleted(self, key: Seq<char>) -> VolumeModel {
        if self.has_child(key) {
            self
        } else {
            VolumeModel { nodes: self.nodes.remove(key), ..self }
        }
    }

    /// The volume after a write to `key`, and how much of it was taken.
    pub open spec fn wrote(
        self,
        key: Seq<char>,
        bytes: Seq<u8>,
        offset: u64,
        to_eof: bool,
        constrained: bool,
        now: u64,
    ) -> (VolumeModel, Result<(usize, FileInfo), Status>) {
        let node = self.nodes[key];
        let start = node.write_start(offset, to_eof);
        let n = node.write_len(start, bytes.len() as int, constrained);
        let data = overwritten(node.data, start, bytes.take(n));
        let after = NodeModel { data, last_write_time: now, ..node };
        if !self.nodes.contains_key(key) {
            (self, Err(Status::AccessDenied))
        } else if constrained && start >= node.data.len() {
            (self, Ok((0, info_of(node))))
        } else {
            (self.with_node(key, after), Ok((n as usize, info_of(after))))
        }
    }

    /// The volume after giving `key` another length.
    pub open spec fn sized(self, key: Seq<char>, len: int, now: u64) -> (
        VolumeModel,
        Result<FileInfo, Status>,
    ) {
        let node = self.nodes[key];
        let after = NodeModel { data: resized(node.data, len), last_write_time: now, ..node };
        if self.nodes.contains_key(key) {
            (self.with_node(key, after), Ok(info_of(after)))
        } else {
            (self, Err(Status::ObjectNameNotFound))
        }
    }

    /// The volume after setting the attributes and times of `key`. A zero leaves
    /// what is there, and so do attributes with every bit set.
    pub open spec fn informed(self, key: Seq<char>, given: FileInfo) -> (
        VolumeModel,
        Result<FileInfo, Status>,
    ) {
        let node = self.nodes[key];
        let given_or = |t: u64, other: u64|
            if t != 0 {
                t
            } else {
                other
            };
        let after = NodeModel {
            attributes: if given.file_attributes != u32::MAX && given.file_attributes != 0 {
                given.file_attributes
            } else {
                node.attributes
            },
            creation_time: given_or(given.creation_time, node.creation_time),
            last_access_time: given_or(given.last_access_time, node.last_access_time),
            last_write_time: given_or(given.last_write_time, node.last_write_time),
            change_time: given_or(given.change_time, node.change_time),
            ..node
        };
        if self.nodes.contains_key(key) {
            (self.with_node(key, after), Ok(info_of(after)))
        } else {
            (self, Err(Status::ObjectNameNotFound))
        }
    }

    /// What listing `dir` shows: itself, its parent and what stands in it.
    pub open spec fn listing(self, dir: Seq<char>) -> Seq<(Seq<char>, FileInfo)> {
        let shown = |name: Seq<char>, key: Seq<char>|
            if self.nodes.contains_key(key) {
                seq![(name, info_of(self.nodes[key]))]
            } else {
                Seq::empty()
            };
        shown("."@, dir) + shown(".."@, parent_path(dir)) + children(self.nodes, dir)
    }

    /// The volume after a rename.
    pub open spec fn renamed(self, from: Seq<char>, to: Seq<char>, replace_if_exists: bool) -> (
        VolumeModel,
        Result<(), Status>,
    ) {
        if self.nodes.contains_key(to) && !replace_if_exists {
            (self, Err(Status::ObjectNameCollision))
        } else {
            (VolumeModel { nodes: moved_nodes(self.nodes, from, to), ..self }, Ok(()))
        }
    }
}

/// An in-memory filesystem.
pub struct NeuralWinFsContext {
    nodes: SortedMap<String, Node>,
    next_index: u64,
}

impl View for NeuralWinFsContext {
    type V = VolumeModel;

    closed spec fn view(&self) -> VolumeModel {
        VolumeModel { nodes: node_map(self.nodes@), next_index: self.next_index }
    }
}

/// No file is too large to be counted in pages.
pub open spec fn countable(nodes: Map<Seq<char>, NodeModel>) -> bool {
    forall|k: Seq<char>| #[trigger] nodes.contains_key(k) ==> nodes[k].data.len() + 4095 <= u64::MAX
}

impl NeuralWinFsContext {
    pub closed spec fn wf(&self) -> bool {
        countable(self@.nodes)
    }

    /// What [`NeuralWinFsContext::wf`] says of the state, and that there are
    /// finitely many nodes.
    pub proof fn lemma_wf(&self)
        requires
            self.wf(),
        ensures
            countable(self@.nodes),
            self@.nodes.dom().finite(),
    {
        self.nodes.lemma_finite();
        assert(self@.nodes.dom() =~= self.nodes@.dom());
    }

    /// A volume with an empty root.
    pub fn new(now: u64) -> (fs: NeuralWinFsContext)
        ensures
            fs.wf(),
            fs@ == VolumeModel::fresh(now),
    {
        let mut nodes: SortedMap<String, Node> = SortedMap::new();
        nodes.insert(
            root_text(),
            Node {
                is_dir: true,
                attributes: FILE_ATTRIBUTE_DIRECTORY,
                data: Vec::new(),
                creation_time: now,
                last_access_time: now,
                last_write_time: now,
                change_time: now,
                index_number: 1,
            },
        );
        let fs = NeuralWinFsContext { nodes, next_index: 2 };
        assert(fs@.nodes =~= VolumeModel::fresh(now).nodes);
        fs
    }

    /// Whether there is a next index number.
    pub fn index_left(&self) -> (r: bool)
        ensures
            r == (self@.next_index < u64::MAX),
    {
        self.next_index < u64::MAX
    }

    /// What the driver is told of a path that is opened.
    pub fn open(&self, key: &String) -> (r: Result<FileInfo, Status>)
        requires
            self.wf(),
        ensures
            r == if self@.nodes.contains_key(key@) {
                Ok::<FileInfo, Status>(info_of(self@.nodes[key@]))
            } else {
                Err(Status::ObjectNameNotFound)
            },
            r == self@.opening(key@),
    {
        match self.nodes.get(key) {
            Some(n) => {
                assert(self@.nodes.contains_key(key@));
                Ok(n.file_info())
            },
            None => Err(Status::ObjectNameNotFound),
        }
    }

    /// Creates a file or a directory in a directory that exists.
    pub fn create(&mut self, key: String, create_options: u32, file_attributes: u32, now: u64) -> (r:
        Result<FileInfo, Status>)
        requires
            old(self).wf(),
            old(self)@.next_index < u64::MAX,
        ensures
            final(self).wf(),
            ({
                let m = old(self)@;
                let parent = parent_path(key@);
                let node = m.new_node(
                    create_options & FILE_DIRECTORY_FILE != 0,
                    file_attributes,
                    now,
                );
                if m.nodes.contains_key(key@) {
                    r == Err::<FileInfo, Status>(Status::ObjectNameCollision) && final(self)@ == m
                } else if !(m.nodes.contains_key(parent) && m.nodes[parent].is_dir) {
                    r == Err::<FileInfo, Status>(Status::ObjectNameNotFound) && final(self)@ == m
                } else {
                    r == Ok::<FileInfo, Status>(info_of(node)) && final(self)@ == (VolumeModel {
                        nodes: m.nodes.insert(key@, node),
                        next_index: (m.next_index + 1) as u64,
                    })
                }
            }),
            (final(self)@, r) == old(self)@.created(key@, create_options, file_attributes, now),
    {
        let is_dir = (create_options & FILE_DIRECTORY_FILE) != 0;
        if self.nodes.contains_key(&key) {
            return Err(Status::ObjectNameCollision);
        }
        let parent = parent_of(key.as_str());
        match self.nodes.get(&parent) {
            Some(p) => {
                if !p.is_dir {
                    return Err(Status::ObjectNameNotFound);
                }
            },
            None => {
                return Err(Status::ObjectNameNotFound);
            },
        }
        let index = self.next_index;
        self.next_index = self.next_index + 1;
        let attributes: u32 = if is_dir {
            FILE_ATTRIBUTE_DIRECTORY
        } else {
            (file_attributes & !FILE_ATTRIBUTE_DIRECTORY) | FILE_ATTRIBUTE_ARCHIVE
        };
        let node = Node {
            is_dir,
            attributes,
            data: Vec::new(),
            creation_time: now,
            last_access_time: now,
            last_write_time: now,
            change_time: now,
            index_number: index,
        };
        let fi = node.file_info();
        let ghost k = key@;
        let ghost n = node@;
        self.nodes.insert(key, node);
        proof {
            assert(self@.nodes =~= old(self)@.nodes.insert(k, n));
        }
        Ok(fi)
    }

    /// Whether some node stands in a directory.
    fn has_child(&self, key: &String) -> (r: bool)
        ensures
            r == self@.has_child(key@),
    {
        let n: usize = self.nodes.len();
        let ghost all = self.nodes.entries();
        let mut i: usize = 0;
        while i < n
            invariant
                all == self.nodes.entries(),
                ascending::<String, Node>(all),
                n == all.len(),
                i <= n,
                forall|j: int| 0 <= j < i ==> !is_child((#[trigger] all[j]).0, key@),
            decreases n - i,
        {
            let k = self.nodes.entry(i).0;
            if *k != *key && parent_of(k.as_str()) == *key {
                proof {
                    lemma_map_of_entry::<String, Node>(all, i as int);
                    assert(self@.nodes.contains_key(all[i as int].0));
                }
                return true;
            }
            i = i + 1;
        }
        proof {
            assert forall|k: Seq<char>| #[trigger] self@.nodes.contains_key(k) implies !is_child(
                k,
                key@,
            ) by {
                let j = lemma_map_of_key(all, k);
            }
        }
        false
    }

    /// Deletes a node when its last handle is cleaned up; a directory that is
    /// not empty stays.
    pub fn cleanup_delete(&mut self, key: &String)
        requires
            old(self).wf(),
        ensures
            final(self).wf(),
            final(self)@ == if old(self)@.has_child(key@) {
                old(self)@
            } else {
                VolumeModel { nodes: old(self)@.nodes.remove(key@), ..old(self)@ }
            },
            final(self)@ == old(self)@.deleted(key@),
    {
        if !self.has_child(key) {
            let _ = self.nodes.remove(key);
            assert(self@.nodes =~= old(self)@.nodes.remove(key@));
        }
    }

    /// Reads at most `size` bytes from `offset` on.
    pub fn read(&self, key: &String, offset: u64, size: usize) -> (r: Result<Vec<u8>, Status>)
        ensures
            match r {
                Ok(v) => {
                    &&& self@.nodes.contains_key(key@)
                    &&& offset < self@.nodes[key@].data.len()
                    &&& v@ == crate::mountfs::slice_of(
                        self@.nodes[key@].data,
                        offset as int,
                        size as int,
                    )
                },
                Err(s) => if self@.nodes.contains_key(key@) {
                    s == Status::EndOfFile && offset >= self@.nodes[key@].data.len()
                } else {
                    s == Status::ObjectNameNotFound
                },
            },
            match r {
                Ok(v) => self@.content(key@, offset as int, size as int) == Ok::<Seq<u8>, Status>(v@),
                Err(s) => self@.content(key@, offset as int, size as int) == Err::<
                    Seq<u8>,
                    Status,
                >(s),
            },
    {
        match self.nodes.get(key) {
            None => Err(Status::ObjectNameNotFound),
            Some(node) => {
                let n: usize = node.data.len();
                if offset >= n as u64 {
                    return Err(Status::EndOfFile);
                }
                let start: usize = offset as usize;
                let end: usize = if size >= n - start {
                    n
                } else {
                    start + size
                };
                assert(node.data@.subrange(start as int, n as int) =~= node.data@.skip(
                    start as int,
                ));
                let part = slice_subrange(node.data.as_slice(), start, end);
                Ok(slice_to_vec(part))
            },
        }
    }
}

/// The data cut off or filled up with zeros to a length.
pub open spec fn resized(data: Seq<u8>, len: int) -> Seq<u8> {
    Seq::new(
        len as nat,
        |i: int|
            if i < data.len() {
                data[i]
            } else {
                0u8
            },
    )
}

/// The data with `bytes` written at `start`; what is missing before is zero.
pub open spec fn overwritten(data: Seq<u8>, start: int, bytes: Seq<u8>) -> Seq<u8> {
    Seq::new(
        if start + bytes.len() > data.len() {
            (start + bytes.len()) as nat
        } else {
            data.len()
        },
        |i: int|
            if start <= i < start + bytes.len() {
                bytes[i - start]
            } else if i < data.len() {
                data[i]
            } else {
                0u8
            },
    )
}

fn resize_data(data: Vec<u8>, len: usize) -> (r: Vec<u8>)
    ensures
        r@ == resized(data@, len as int),
{
    let mut r = data;
    r.resize(len, 0);
    assert(r@ =~= resized(data@, len as int));
    r
}

fn overwrite(data: Vec<u8>, start: usize, buffer: &[u8], n: usize) -> (r: Vec<u8>)
    requires
        n <= buffer@.len(),
        start + n <= usize::MAX,
    ensures
        r@ == overwritten(data@, start as int, buffer@.take(n as int)),
{
    let end: usize = start + n;
    let ghost old_data = data@;
    let mut r = if end > data.len() {
        resize_data(data, end)
    } else {
        data
    };
    let ghost base = r@;
    let mut i: usize = 0;
    while i < n
        invariant
            n <= buffer@.len(),
            end == start + n,
            end <= base.len(),
            r@.len() == base.len(),
            i <= n,
            forall|j: int|
                0 <= j < base.len() ==> #[trigger] r@[j] == if start <= j < start + i {
                    buffer@[j - start]
                } else {
                    base[j]
                },
        decreases n - i,
    {
        r.set(start + i, buffer[i]);
        i = i + 1;
    }
    assert(r@ =~= overwritten(old_data, start as int, buffer@.take(n as int)));
    r
}

impl NodeModel {
    /// Where a write begins.
    pub open spec fn write_start(self, offset: u64, to_eof: bool) -> int {
        if to_eof {
            self.data.len() as int
        } else {
            offset as int
        }
    }

    /// How many of `len` bytes a write takes: a constrained one does not extend
    /// the file.
    pub open spec fn write_len(self, start: int, len: int, constrained: bool) -> int {
        if !constrained || start + len <= self.data.len() {
            len
        } else if start >= self.data.len() {
            0
        } else {
            self.data.len() - start
        }
    }
}

impl NeuralWinFsContext {
    /// Whether a file can grow to hold a write; a constrained one does not make
    /// it grow.
    pub fn write_fits(
        &self,
        key: &String,
        offset: u64,
        len: usize,
        to_eof: bool,
        constrained: bool,
    ) -> (r: bool)
        ensures
            r == (!constrained && self@.nodes.contains_key(key@)
                ==> self@.nodes[key@].write_start(offset, to_eof) + len + 4095 <= usize::MAX),
    {
        if constrained {
            return true;
        }
        match self.nodes.get(key) {
            None => true,
            Some(node) => {
                let start: u128 = if to_eof {
                    node.data.len() as u128
                } else {
                    offset as u128
                };
                start + len as u128 + 4095 <= usize::MAX as u128
            },
        }
    }

    /// Writes to a file. How many bytes were written, and what the driver is
    /// told of the file afterwards.
    pub fn write(
        &mut self,
        key: &String,
        buffer: &[u8],
        offset: u64,
        to_eof: bool,
        constrained: bool,
        now: u64,
    ) -> (r: Result<(usize, FileInfo), Status>)
        requires
            old(self).wf(),
            !constrained && old(self)@.nodes.contains_key(key@)
                ==> old(self)@.nodes[key@].write_start(offset, to_eof) + buffer@.len() + 4095
                <= usize::MAX,
        ensures
            final(self).wf(),
            ({
                let m = old(self)@;
                let node = m.nodes[key@];
                let start = node.write_start(offset, to_eof);
                let n = node.write_len(start, buffer@.len() as int, constrained);
                if !m.nodes.contains_key(key@) {
                    r == Err::<(usize, FileInfo), Status>(Status::AccessDenied) && final(self)@ == m
                } else if constrained && start >= node.data.len() {
                    r == Ok::<(usize, FileInfo), Status>((0, info_of(node))) && final(self)@ == m
                } else {
                    let after = NodeModel {
                        data: overwritten(node.data, start, buffer@.take(n)),
                        last_write_time: now,
                        ..node
                    };
                    &&& r == Ok::<(usize, FileInfo), Status>((n as usize, info_of(after)))
                    &&& final(self)@ == m.with_node(key@, after)
                }
            }),
            (final(self)@, r) == old(self)@.wrote(
                key@,
                buffer@,
                offset,
                to_eof,
                constrained,
                now,
            ),
    {
        let ghost m = self@;
        let mut node = match self.nodes.remove(key) {
            Some(node) => node,
            None => {
                assert(self@.nodes =~= m.nodes);
                return Err(Status::AccessDenied);
            },
        };
        let ghost before = node@;
        assert(m.nodes.contains_key(key@) && m.nodes[key@] == before);
        let len: usize = node.data.len();
        let from: u64 = if to_eof {
            len as u64
        } else {
            offset
        };
        if constrained && from >= len as u64 {
            let fi = node.file_info();
            self.nodes.insert(key.clone(), node);
            assert(self@.nodes =~= m.nodes);
            return Ok((0, fi));
        }
        let start: usize = from as usize;
        let n: usize = if constrained && buffer.len() > len - start {
            len - start
        } else {
            buffer.len()
        };
        let data = overwrite(node.data, start, buffer, n);
        node.data = data;
        node.last_write_time = now;
        let fi = node.file_info();
        let ghost after = node@;
        self.nodes.insert(key.clone(), node);
        proof {
            assert(after =~= (NodeModel {
                data: overwritten(before.data, start as int, buffer@.take(n as int)),
                last_write_time: now,
                ..before
            }));
            assert(self@.nodes =~= m.nodes.insert(key@, after));
        }
        Ok((n, fi))
    }

    /// Changes the length of a file.
    pub fn set_file_size(&mut self, key: &String, new_size: usize, now: u64) -> (r: Result<
        FileInfo,
        Status,
    >)
        requires
            old(self).wf(),
            new_size + 4095 <= u64::MAX,
        ensures
            final(self).wf(),
            ({
                let m = old(self)@;
                let after = NodeModel {
                    data: resized(m.nodes[key@].data, new_size as int),
                    last_write_time: now,
                    ..m.nodes[key@]
                };
                if m.nodes.contains_key(key@) {
                    r == Ok::<FileInfo, Status>(info_of(after)) && final(self)@ == m.with_node(
                        key@,
                        after,
                    )
                } else {
                    r == Err::<FileInfo, Status>(Status::ObjectNameNotFound) && final(self)@ == m
                }
            }),
            (final(self)@, r) == old(self)@.sized(key@, new_size as int, now),
    {
        let ghost m = self@;
        let mut node = match self.nodes.remove(key) {
            Some(node) => node,
            None => {
                assert(self@.nodes =~= m.nodes);
                return Err(Status::ObjectNameNotFound);
            },
        };
        let ghost before = node@;
        let data = resize_data(node.data, new_size);
        node.data = data;
        node.last_write_time = now;
        let fi = node.file_info();
        let ghost after = node@;
        self.nodes.insert(key.clone(), node);
        proof {
            assert(m.nodes[key@] == before);
            assert(self@.nodes =~= m.nodes.insert(key@, after));
        }
        Ok(fi)
    }

    /// Changes attributes and times: those that are not zero and, of the
    /// attributes, not all ones.
    pub fn set_basic_info(
        &mut self,
        key: &String,
        file_attributes: u32,
        creation_time: u64,
        last_access_time: u64,
        last_write_time: u64,
        change_time: u64,
    ) -> (r: Result<FileInfo, Status>)
        requires
            old(self).wf(),
        ensures
            final(self).wf(),
            ({
                let m = old(self)@;
                let node = m.nodes[key@];
                let after = NodeModel {
                    attributes: if file_attributes != u32::MAX && file_attributes != 0 {
                        file_attributes
                    } else {
                        node.attributes
                    },
                    creation_time: if creation_time != 0 {
                        creation_time
                    } else {
                        node.creation_time
                    },
                    last_access_time: if last_access_time != 0 {
                        last_access_time
                    } else {
                        node.last_access_time
                    },
                    last_write_time: if last_write_time != 0 {
                        last_write_time
                    } else {
                        node.last_write_time
                    },
                    change_time: if change_time != 0 {
                        change_time
                    } else {
                        node.change_time
                    },
                    ..node
                };
                if m.nodes.contains_key(key@) {
                    r == Ok::<FileInfo, Status>(info_of(after)) && final(self)@ == m.with_node(
                        key@,
                        after,
                    )
                } else {
                    r == Err::<FileInfo, Status>(Status::ObjectNameNotFound) && final(self)@ == m
                }
            }),
            forall|given: FileInfo|
                given.file_attributes == file_attributes && given.creation_time == creation_time
                    && given.last_access_time == last_access_time && given.last_write_time
                    == last_write_time && given.change_time == change_time ==> (final(self)@, r)
                    == #[trigger] old(self)@.informed(key@, given),
    {
        let ghost m = self@;
        let mut node = match self.nodes.remove(key) {
            Some(node) => node,
            None => {
                assert(self@.nodes =~= m.nodes);
                return Err(Status::ObjectNameNotFound);
            },
        };
        proof {
            assert(m.nodes[key@] == node@);
            assert(m.nodes.contains_key(key@));
        }
        if file_attributes != u32::MAX && file_attributes != 0 {
            node.attributes = file_attributes;
        }
        if creation_time != 0 {
            node.creation_time = creation_time;
        }
        if last_access_time != 0 {
            node.last_access_time = last_access_time;
        }
        if last_write_time != 0 {
            node.last_write_time = last_write_time;
        }
        if change_time != 0 {
            node.change_time = change_time;
        }
        let fi = node.file_info();
        let ghost after = node@;
        self.nodes.insert(key.clone(), node);
        assert(self@.nodes =~= m.nodes.insert(key@, after));
        Ok(fi)
    }
}

/// `k` is `from` or lies below it.
pub open spec fn lies_under(k: Seq<char>, from: Seq<char>) -> bool {
    k == from || (k.len() > from.len() && k.take(from.len() as int) == from && k[from.len() as int]
        == '\\')
}

/// Where a path that lies under `from` is when `from` has become `to`.
pub open spec fn moved_path(k: Seq<char>, from: Seq<char>, to: Seq<char>) -> Seq<char> {
    to + k.skip(from.len() as int)
}

/// `k` is where a node under `from` has gone, which stood at `a`.
pub open spec fn came_from<V>(
    nodes: Map<Seq<char>, V>,
    from: Seq<char>,
    to: Seq<char>,
    k: Seq<char>,
    a: Seq<char>,
) -> bool {
    nodes.contains_key(a) && lies_under(a, from) && moved_path(a, from, to) == k
}

/// The nodes with everything under `from` moved to `to`.
pub open spec fn moved_nodes<V>(nodes: Map<Seq<char>, V>, from: Seq<char>, to: Seq<char>) -> Map<
    Seq<char>,
    V,
> {
    Map::new(
        |k: Seq<char>|
            (exists|a: Seq<char>| came_from(nodes, from, to, k, a)) || (nodes.contains_key(k)
                && !lies_under(k, from)),
        |k: Seq<char>|
            if exists|a: Seq<char>| came_from(nodes, from, to, k, a) {
                nodes[choose|a: Seq<char>| came_from(nodes, from, to, k, a)]
            } else {
                nodes[k]
            },
    )
}

proof fn lemma_moved_injective(a: Seq<char>, b: Seq<char>, from: Seq<char>, to: Seq<char>)
    requires
        lies_under(a, from),
        lies_under(b, from),
        moved_path(a, from, to) == moved_path(b, from, to),
    ensures
        a == b,
{
    let n = from.len() as int;
    let t = to.len() as int;
    assert(moved_path(a, from, to).skip(t) =~= a.skip(n));
    assert(moved_path(b, from, to).skip(t) =~= b.skip(n));
    assert(a =~= from + a.skip(n));
    assert(b =~= from + b.skip(n));
}

/// Whether a path is another one or lies below it.
fn under(k: &Vec<char>, from: &Vec<char>) -> (r: bool)
    ensures
        r == lies_under(k@, from@),
{
    if k.len() < from.len() {
        return false;
    }
    let mut i: usize = 0;
    while i < from.len()
        invariant
            from@.len() <= k@.len(),
            i <= from@.len(),
            forall|j: int| 0 <= j < i ==> k@[j] == from@[j],
        decreases from@.len() - i,
    {
        if k[i] != from[i] {
            assert(k@.take(from@.len() as int)[i as int] != from@[i as int]);
            return false;
        }
        i = i + 1;
    }
    assert(k@.take(from@.len() as int) =~= from@);
    if k.len() == from.len() {
        assert(k@ =~= from@);
        return true;
    }
    k[from.len()] == '\\'
}

impl NeuralWinFsContext {
    /// The paths that are `from` or lie below it.
    fn paths_under(&self, from: &Vec<char>) -> (v: Vec<String>)
        ensures
            forall|i: int|
                0 <= i < v@.len() ==> self.nodes@.contains_key((#[trigger] v@[i])@) && lies_under(
                    v@[i]@,
                    from@,
                ),
            forall|k: Seq<char>| #[trigger]
                self.nodes@.contains_key(k) && lies_under(k, from@) ==> exists|i: int|
                    0 <= i < v@.len() && (#[trigger] v@[i])@ == k,
            forall|i: int, j: int|
                0 <= i < j < v@.len() ==> (#[trigger] v@[i])@ != (#[trigger] v@[j])@,
    {
        let n: usize = self.nodes.len();
        let ghost all = self.nodes.entries();
        let mut v: Vec<String> = Vec::new();
        let ghost mut at: Seq<int> = Seq::empty();
        let mut i: usize = 0;
        while i < n
            invariant
                all == self.nodes.entries(),
                n == all.len(),
                i <= n,
                at.len() == v@.len(),
                forall|x: int| 0 <= x < at.len() ==> 0 <= #[trigger] at[x] < i,
                forall|x: int| 0 <= x < at.len() ==> (#[trigger] v@[x])@ == all[at[x]].0,
                forall|x: int| 0 <= x < at.len() ==> lies_under((#[trigger] v@[x])@, from@),
                forall|x: int, y: int| 0 <= x < y < at.len() ==> #[trigger] at[x] < #[trigger] at[y],
                forall|y: int|
                    0 <= y < i && lies_under((#[trigger] all[y]).0, from@) ==> at.contains(y),
            decreases n - i,
        {
            let k = self.nodes.entry(i).0;
            let chars = chars_of(k.as_str());
            if under(&chars, from) {
                let ghost before = at;
                v.push(k.clone());
                proof {
                    at = at.push(i as int);
                    assert(at[before.len() as int] == i);
                    assert forall|y: int|
                        0 <= y < i + 1 && lies_under((#[trigger] all[y]).0, from@) implies
                        at.contains(y) by {
                        if y < i {
                            let x = choose|x: int| 0 <= x < before.len() && before[x] == y;
                            assert(at[x] == y);
                        }
                    }
                }
            }
            i = i + 1;
        }
        proof {
            assert(ascending::<String, Node>(all));
            assert forall|x: int| 0 <= x < v@.len() implies self.nodes@.contains_key(
                (#[trigger] v@[x])@,
            ) by {
                lemma_map_of_entry::<String, Node>(all, at[x]);
            }
            assert forall|k: Seq<char>| #[trigger]
                self.nodes@.contains_key(k) && lies_under(k, from@) implies exists|x: int|
                0 <= x < v@.len() && (#[trigger] v@[x])@ == k by {
                let y = lemma_map_of_key(all, k);
                assert(at.contains(y));
                let x = choose|x: int| 0 <= x < at.len() && at[x] == y;
                assert(v@[x]@ == k);
            }
            assert forall|x: int, y: int| 0 <= x < y < v@.len() implies (#[trigger] v@[x])@ != (
            #[trigger] v@[y])@ by {
                assert(at[x] < at[y]);
                assert(String::before(all[at[x]].0, all[at[y]].0));
                String::irreflexive(all[at[x]].0);
            }
        }
        v
    }

    /// Renames a node together with everything below it.
    pub fn rename(&mut self, from: &String, to: &String, replace_if_exists: bool) -> (r: Result<
        (),
        Status,
    >)
        requires
            old(self).wf(),
        ensures
            final(self).wf(),
            if old(self)@.nodes.contains_key(to@) && !replace_if_exists {
                r == Err::<(), Status>(Status::ObjectNameCollision) && final(self)@ == old(self)@
            } else {
                r == Ok::<(), Status>(()) && final(self)@ == (VolumeModel {
                    nodes: moved_nodes(old(self)@.nodes, from@, to@),
                    ..old(self)@
                })
            },
            (final(self)@, r) == old(self)@.renamed(from@, to@, replace_if_exists),
    {
        if self.nodes.contains_key(to) && !replace_if_exists {
            return Err(Status::ObjectNameCollision);
        }
        let ghost start = self.nodes@;
        let from_chars = chars_of(from.as_str());
        let keys = self.paths_under(&from_chars);
        let mut moved: Vec<(String, Node)> = Vec::new();
        let mut i: usize = 0;
        while i < keys.len()
            invariant
                from_chars@ == from@,
                self.next_index == old(self).next_index,
                i <= keys@.len(),
                moved@.len() == i,
                forall|x: int|
                    0 <= x < keys@.len() ==> start.contains_key((#[trigger] keys@[x])@)
                        && lies_under(keys@[x]@, from@),
                forall|x: int, y: int|
                    0 <= x < y < keys@.len() ==> (#[trigger] keys@[x])@ != (#[trigger] keys@[y])@,
                forall|x: int|
                    0 <= x < i ==> (#[trigger] moved@[x]).0@ == moved_path(keys@[x]@, from@, to@)
                        && moved@[x].1 == start[keys@[x]@],
                forall|x: int|
                    i <= x < keys@.len() ==> self.nodes@.contains_key((#[trigger] keys@[x])@),
                forall|k: Seq<char>| #[trigger]
                    self.nodes@.contains_key(k) ==> start.contains_key(k) && self.nodes@[k]
                        == start[k],
                forall|k: Seq<char>|
                    start.contains_key(k) && !lies_under(k, from@)
                        ==> #[trigger] self.nodes@.contains_key(k),
                forall|x: int|
                    0 <= x < i ==> !self.nodes@.contains_key((#[trigger] keys@[x])@),
            decreases keys@.len() - i,
        {
            let ghost before = self.nodes@;
            match self.nodes.remove(&keys[i]) {
                Some(node) => {
                    let chars = chars_of(keys[i].as_str());
                    assert(from_chars@.len() <= chars@.len());
                    let tail = text_of(&chars, from_chars.len(), chars.len());
                    let new_key = to.clone().concat(tail.as_str());
                    assert(chars@.subrange(from@.len() as int, chars@.len() as int)
                        =~= chars@.skip(from@.len() as int));
                    moved.push((new_key, node));
                },
                None => {
                    assert(false);
                },
            }
            i = i + 1;
        }
        let ghost rest = self.nodes@;
        let ghost all = moved@;
        proof {
            assert forall|k: Seq<char>| #[trigger] rest.contains_key(k) implies !lies_under(
                k,
                from@,
            ) by {
                if lies_under(k, from@) {
                    assert(start.contains_key(k));
                    let x = choose|x: int| 0 <= x < keys@.len() && (#[trigger] keys@[x])@ == k;
                    assert(!rest.contains_key(keys@[x]@));
                }
            }
            assert forall|x: int, y: int| 0 <= x < y < all.len() implies (#[trigger] all[x]).0@ != (
            #[trigger] all[y]).0@ by {
                if all[x].0@ == all[y].0@ {
                    lemma_moved_injective(keys@[x]@, keys@[y]@, from@, to@);
                }
            }
        }
        while moved.len() > 0
            invariant
                self.next_index == old(self).next_index,
                moved@.len() <= all.len(),
                moved@ == all.take(moved@.len() as int),
                forall|x: int, y: int|
                    0 <= x < y < all.len() ==> (#[trigger] all[x]).0@ != (#[trigger] all[y]).0@,
                forall|k: Seq<char>|
                    #![trigger self.nodes@.contains_key(k)]
                    self.nodes@.contains_key(k) <==> rest.contains_key(k) || exists|x: int|
                        moved@.len() <= x < all.len() && (#[trigger] all[x]).0@ == k,
                forall|x: int|
                    moved@.len() <= x < all.len() ==> self.nodes@[(#[trigger] all[x]).0@]
                        == all[x].1,
                forall|k: Seq<char>|
                    #![trigger self.nodes@[k]]
                    rest.contains_key(k) && (forall|x: int|
                        moved@.len() <= x < all.len() ==> (#[trigger] all[x]).0@ != k)
                        ==> self.nodes@[k] == rest[k],
            decreases moved@.len(),
        {
            let ghost nodes = self.nodes@;
            let ghost last = moved@.len() - 1;
            if let Some((key, node)) = moved.pop() {
                self.nodes.insert(key, node);
                proof {
                    assert(all[last].0@ == key@ && all[last].1 == node);
                    assert(moved@ =~= all.take(last));
                    assert forall|k: Seq<char>|
                        #![trigger self.nodes@.contains_key(k)]
                        self.nodes@.contains_key(k) <==> rest.contains_key(k) || exists|x: int|
                            last <= x < all.len() && (#[trigger] all[x]).0@ == k by {
                        if nodes.contains_key(k) && !rest.contains_key(k) {
                            let x = choose|x: int|
                                last + 1 <= x < all.len() && (#[trigger] all[x]).0@ == k;
                        }
                        if exists|x: int| last <= x < all.len() && (#[trigger] all[x]).0@ == k {
                            let x = choose|x: int|
                                last <= x < all.len() && (#[trigger] all[x]).0@ == k;
                            if x > last {
                                assert(nodes.contains_key(k));
                            }
                        }
                    }
                }
            }
        }
        proof {
            let want = moved_nodes(start, from@, to@);
            assert forall|k: Seq<char>|
                #![trigger self.nodes@.dom().contains(k)]
                self.nodes@.dom().contains(k) == want.dom().contains(k) && (
                self.nodes@.dom().contains(k) ==> self.nodes@[k] == want[k]) by {
                let _ = self.nodes@.contains_key(k);
                let _ = self.nodes@[k];
                if exists|a: Seq<char>| came_from(start, from@, to@, k, a) {
                    let a = choose|a: Seq<char>| came_from(start, from@, to@, k, a);
                    let x = choose|x: int| 0 <= x < keys@.len() && (#[trigger] keys@[x])@ == a;
                    assert(all[x].0@ == k);
                    assert(all[x].1 == start[a]);
                } else {
                    assert forall|x: int| 0 <= x < all.len() implies (#[trigger] all[x]).0@ != k by {
                        if all[x].0@ == k {
                            assert(came_from(start, from@, to@, k, keys@[x]@));
                        }
                    }
                }
            }
            assert(self.nodes@ =~= want);
            lemma_moved_views(start, from@, to@);
            assert(self@.nodes =~= moved_nodes(old(self)@.nodes, from@, to@));
            assert forall|k: Seq<char>| #[trigger] self@.nodes.contains_key(k) implies self@.nodes[k].data.len()
                + 4095 <= u64::MAX by {
                if exists|a: Seq<char>| came_from(old(self)@.nodes, from@, to@, k, a) {
                    let a = choose|a: Seq<char>| came_from(old(self)@.nodes, from@, to@, k, a);
                    assert(old(self)@.nodes.contains_key(a));
                } else {
                    assert(old(self)@.nodes.contains_key(k));
                }
            }
        }
        Ok(())
    }
}

/// Moving nodes moves what they hold.
proof fn lemma_moved_views(nodes: Map<Seq<char>, Node>, from: Seq<char>, to: Seq<char>)
    ensures
        node_map(moved_nodes(nodes, from, to)) == moved_nodes(node_map(nodes), from, to),
{
    let a = node_map(moved_nodes(nodes, from, to));
    let b = moved_nodes(node_map(nodes), from, to);
    assert forall|k: Seq<char>|
        #![trigger a.dom().contains(k)]
        a.dom().contains(k) == b.dom().contains(k) && (a.dom().contains(k) ==> a[k] == b[k]) by {
        assert forall|x: Seq<char>| came_from(nodes, from, to, k, x) == came_from(
            node_map(nodes),
            from,
            to,
            k,
            x,
        ) by {}
        if exists|x: Seq<char>| came_from(nodes, from, to, k, x) {
            let x = choose|x: Seq<char>| came_from(nodes, from, to, k, x);
            assert(came_from(node_map(nodes), from, to, k, x));
            let y = choose|y: Seq<char>| came_from(node_map(nodes), from, to, k, y);
            lemma_moved_injective(x, y, from, to);
        } else if exists|x: Seq<char>| came_from(node_map(nodes), from, to, k, x) {
            let x = choose|x: Seq<char>| came_from(node_map(nodes), from, to, k, x);
            assert(came_from(nodes, from, to, k, x));
        }
    }
    assert(a =~= b);
}

/// A node of a directory: its name there and its path.
pub struct ChildKey {
    pub name: String,
    pub path: String,
}

impl OrderedKey for ChildKey {
    type Model = (Seq<char>, Seq<char>);

    open spec fn model(self) -> (Seq<char>, Seq<char>) {
        (self.name@, self.path@)
    }

    open spec fn before(a: (Seq<char>, Seq<char>), b: (Seq<char>, Seq<char>)) -> bool {
        String::before(a.0, b.0) || (a.0 == b.0 && String::before(a.1, b.1))
    }

    proof fn irreflexive(a: (Seq<char>, Seq<char>)) {
        String::irreflexive(a.0);
        String::irreflexive(a.1);
    }

    proof fn transitive(
        a: (Seq<char>, Seq<char>),
        b: (Seq<char>, Seq<char>),
        c: (Seq<char>, Seq<char>),
    ) {
        if String::before(a.0, b.0) && String::before(b.0, c.0) {
            String::transitive(a.0, b.0, c.0);
        }
        if String::before(a.1, b.1) && String::before(b.1, c.1) {
            String::transitive(a.1, b.1, c.1);
        }
    }

    proof fn total(a: (Seq<char>, Seq<char>), b: (Seq<char>, Seq<char>)) {
        String::total(a.0, b.0);
        String::total(a.1, b.1);
    }

    fn precedes(&self, other: &ChildKey) -> (r: bool) {
        proof {
            String::irreflexive(self.name@);
            String::total(self.name@, other.name@);
            if String::before(self.name@, other.name@) && String::before(other.name@, self.name@) {
                String::transitive(self.name@, other.name@, self.name@);
            }
        }
        if self.name.precedes(&other.name) {
            true
        } else if other.name.precedes(&self.name) {
            false
        } else {
            self.path.precedes(&other.path)
        }
    }
}

/// What the driver is told of the nodes of a directory, by name and path.
pub open spec fn child_map(nodes: Map<Seq<char>, NodeModel>, dir: Seq<char>) -> Map<
    (Seq<char>, Seq<char>),
    FileInfo,
> {
    Map::new(
        |k: (Seq<char>, Seq<char>)|
            nodes.contains_key(k.1) && is_child(k.1, dir) && k.0 == base_name(k.1),
        |k: (Seq<char>, Seq<char>)| info_of(nodes[k.1]),
    )
}

/// The children of a directory in the order of their names.
pub open spec fn children(nodes: Map<Seq<char>, NodeModel>, dir: Seq<char>) -> Seq<
    (Seq<char>, FileInfo),
> {
    let all = entries_of::<ChildKey, FileInfo>(child_map(nodes, dir));
    Seq::new(all.len(), |i: int| (all[i].0.0, all[i].1))
}

/// The nodes in ascending order of their paths.
pub open spec fn node_list(nodes: Map<Seq<char>, NodeModel>) -> Seq<(Seq<char>, NodeModel)> {
    entries_of::<String, NodeModel>(nodes)
}

/// What the names and figures say.
pub open spec fn listing_view(v: Seq<(String, FileInfo)>) -> Seq<(Seq<char>, FileInfo)> {
    Seq::new(v.len(), |i: int| (v[i].0@, v[i].1))
}

/// The bytes that the first `n` nodes hold together.
pub open spec fn used_bytes(nodes: Seq<(Seq<char>, NodeModel)>, n: int) -> nat
    decreases n,
{
    if n <= 0 {
        0
    } else {
        used_bytes(nodes, n - 1) + nodes[n - 1].1.data.len()
    }
}

/// The nodes as a map lists them.
proof fn lemma_node_list(all: Seq<(Seq<char>, Node)>)
    requires
        ascending::<String, Node>(all),
    ensures
        node_list(node_map(map_of(all))) == Seq::new(all.len(), |i: int| (all[i].0, all[i].1@)),
{
    let s = Seq::new(all.len(), |i: int| (all[i].0, all[i].1@));
    let nodes = node_map(map_of(all));
    assert(ascending::<String, NodeModel>(s)) by {
        assert forall|i: int, j: int| 0 <= i < j < s.len() implies String::before(
            (#[trigger] s[i]).0,
            (#[trigger] s[j]).0,
        ) by {
            assert(String::before(all[i].0, all[j].0));
        }
    }
    assert forall|k: Seq<char>| #[trigger] map_of(s).contains_key(k) implies nodes.contains_key(k)
        && map_of(s)[k] == nodes[k] by {
        let i = lemma_map_of_key(s, k);
        lemma_map_of_entry::<String, Node>(all, i);
    }
    assert forall|k: Seq<char>| #[trigger] nodes.contains_key(k) implies map_of(s).contains_key(
        k,
    ) by {
        let i = lemma_map_of_key(all, k);
        assert(s[i].0 == k);
    }
    assert(map_of(s).dom() =~= nodes.dom());
    assert(map_of(s) =~= nodes);
    lemma_entries_unique::<String, NodeModel>(s, node_list(nodes));
}

impl NeuralWinFsContext {
    /// How many nodes there are, the root among them.
    pub fn count(&self) -> (n: usize)
        ensures
            n == node_list(self@.nodes).len(),
    {
        let n = self.nodes.len();
        proof {
            lemma_node_list(self.nodes.entries());
        }
        n
    }

    /// The listing of a directory: itself, its parent and its children in the
    /// order of their names.
    pub fn read_directory(&self, dir: &String) -> (v: Vec<(String, FileInfo)>)
        requires
            self.wf(),
        ensures
            ({
                let m = self@.nodes;
                let own = if m.contains_key(dir@) {
                    seq![("."@, info_of(m[dir@]))]
                } else {
                    Seq::empty()
                };
                let up = if m.contains_key(parent_path(dir@)) {
                    seq![(".."@, info_of(m[parent_path(dir@)]))]
                } else {
                    Seq::empty()
                };
                listing_view(v@) == own + up + children(m, dir@)
            }),
            listing_view(v@) == self@.listing(dir@),
    {
        let ghost m = self@.nodes;
        let mut v: Vec<(String, FileInfo)> = Vec::new();
        if let Some(n) = self.nodes.get(dir) {
            assert(m.contains_key(dir@));
            v.push((".".to_owned(), n.file_info()));
        }
        let parent = parent_of(dir.as_str());
        if let Some(n) = self.nodes.get(&parent) {
            assert(m.contains_key(parent@));
            v.push(("..".to_owned(), n.file_info()));
        }
        let ghost head = listing_view(v@);
        proof {
            let own = if m.contains_key(dir@) {
                seq![("."@, info_of(m[dir@]))]
            } else {
                Seq::empty()
            };
            let up = if m.contains_key(parent_path(dir@)) {
                seq![(".."@, info_of(m[parent_path(dir@)]))]
            } else {
                Seq::empty()
            };
            assert(head =~= own + up);
        }
        let found = self.children_of(dir);
        let n: usize = found.len();
        let ghost all = found.entries();
        let ghost tail = children(m, dir@);
        let mut i: usize = 0;
        assert(head + tail.take(0) =~= head);
        while i < n
            invariant
                all == found.entries(),
                n == all.len(),
                tail.len() == n,
                forall|j: int| 0 <= j < n ==> (#[trigger] tail[j]) == (all[j].0.0, all[j].1),
                i <= n,
                listing_view(v@) == head + tail.take(i as int),
            decreases n - i,
        {
            let e = found.entry(i);
            let ghost before = v@;
            v.push((e.0.name.clone(), *e.1));
            assert(tail[i as int] == (all[i as int].0.0, all[i as int].1));
            assert(listing_view(v@) =~= listing_view(before).push(tail[i as int]));
            assert(tail.take(i + 1) =~= tail.take(i as int).push(tail[i as int]));
            assert(listing_view(v@) =~= head + tail.take(i + 1));
            i = i + 1;
        }
        assert(tail.take(n as int) =~= tail);
        v
    }

    /// The nodes of a directory, by name and path.
    fn children_of(&self, dir: &String) -> (found: SortedMap<ChildKey, FileInfo>)
        requires
            self.wf(),
        ensures
            found@ == child_map(self@.nodes, dir@),
    {
        let ghost m = self@.nodes;
        let mut found: SortedMap<ChildKey, FileInfo> = SortedMap::new();
        let n: usize = self.nodes.len();
        let ghost all = self.nodes.entries();
        let mut i: usize = 0;
        while i < n
            invariant
                self.wf(),
                m == self@.nodes,
                all == self.nodes.entries(),
                ascending::<String, Node>(all),
                n == all.len(),
                i <= n,
                forall|k: (Seq<char>, Seq<char>)| #[trigger]
                    found@.contains_key(k) <==> child_map(m, dir@).contains_key(k) && exists|j: int|
                        0 <= j < i && (#[trigger] all[j]).0 == k.1,
                forall|k: (Seq<char>, Seq<char>)| #[trigger]
                    found@.contains_key(k) ==> found@[k] == info_of(m[k.1]),
            decreases n - i,
        {
            let e = self.nodes.entry(i);
            proof {
                lemma_map_of_entry::<String, Node>(all, i as int);
                assert(m.contains_key(all[i as int].0));
            }
            let ghost before = found@;
            let ghost new = (base_name(e.0@), e.0@);
            if *e.0 != *dir && parent_of(e.0.as_str()) == *dir {
                let name = basename_of(e.0.as_str());
                found.insert(ChildKey { name, path: e.0.clone() }, e.1.file_info());
                assert(found@ == before.insert(new, info_of(m[e.0@])));
            }
            assert forall|k: (Seq<char>, Seq<char>)| #[trigger]
                found@.contains_key(k) <==> child_map(m, dir@).contains_key(k) && exists|j: int|
                    0 <= j < i + 1 && (#[trigger] all[j]).0 == k.1 by {
                assert(before.contains_key(k) <==> child_map(m, dir@).contains_key(k) && exists|
                    j: int,
                |
                    0 <= j < i && (#[trigger] all[j]).0 == k.1);
                if k.1 == e.0@ {
                    assert(all[i as int].0 == k.1);
                }
                if exists|j: int| 0 <= j < i + 1 && (#[trigger] all[j]).0 == k.1 {
                    let j = choose|j: int| 0 <= j < i + 1 && (#[trigger] all[j]).0 == k.1;
                    if j == i {
                        assert(k.1 == e.0@);
                    }
                }
            }
            i = i + 1;
        }
        assert forall|k: (Seq<char>, Seq<char>)| #[trigger] found@.contains_key(k) == child_map(
            m,
            dir@,
        ).contains_key(k) by {
            if child_map(m, dir@).contains_key(k) {
                let j = lemma_map_of_key(all, k.1);
                assert(all[j].0 == k.1);
            }
        }
        assert(found@ =~= child_map(m, dir@));
        found
    }

    /// The nominal size of the volume and what is left of it.
    pub fn volume_info(&self) -> (r: (u64, u64))
        ensures
            r.0 == VOLUME_SIZE,
            r.1 == ({
                let all = node_list(self@.nodes);
                let used = used_bytes(all, all.len() as int);
                if used <= VOLUME_SIZE {
                    VOLUME_SIZE - used
                } else {
                    0
                }
            }),
    {
        let n: usize = self.nodes.len();
        let ghost all = node_list(self@.nodes);
        proof {
            lemma_node_list(self.nodes.entries());
        }
        let mut free: u64 = VOLUME_SIZE;
        let mut i: usize = 0;
        while i < n
            invariant
                all.len() == self.nodes.entries().len(),
                forall|j: int|
                    0 <= j < n ==> (#[trigger] all[j]).1 == self.nodes.entries()[j].1@,
                n == all.len(),
                i <= n,
                free == ({
                    let used = used_bytes(all, i as int);
                    if used <= VOLUME_SIZE {
                        VOLUME_SIZE - used
                    } else {
                        0
                    }
                }),
            decreases n - i,
        {
            let len: u64 = self.nodes.entry(i).1.data.len() as u64;
            assert(all[i as int].1.data.len() == len);
            free = if len <= free {
                free - len
            } else {
                0
            };
            i = i + 1;
        }
        (VOLUME_SIZE, free)
    }
}

/// A listing is in the order of the names, and holds every node of the
/// directory.
pub proof fn law_listing_is_ordered_by_name(
    nodes: Map<Seq<char>, NodeModel>,
    dir: Seq<char>,
    i: int,
    j: int,
    k: Seq<char>,
)
    requires
        nodes.dom().finite(),
        0 <= i < j < children(nodes, dir).len(),
        nodes.contains_key(k),
        is_child(k, dir),
    ensures
        children(nodes, dir)[i].0 == children(nodes, dir)[j].0 || String::before(
            children(nodes, dir)[i].0,
            children(nodes, dir)[j].0,
        ),
        children(nodes, dir).contains((base_name(k), info_of(nodes[k]))),
{
    let m = child_map(nodes, dir);
    lemma_child_map_finite(nodes, dir);
    lemma_finite_map_has_entries::<ChildKey, FileInfo>(m);
    let all = entries_of::<ChildKey, FileInfo>(m);
    assert(ChildKey::before(all[i].0, all[j].0));
    let p = lemma_map_of_key(all, (base_name(k), k));
    assert(children(nodes, dir)[p] == (base_name(k), info_of(nodes[k])));
}

pub proof fn lemma_child_map_finite(nodes: Map<Seq<char>, NodeModel>, dir: Seq<char>)
    requires
        nodes.dom().finite(),
    ensures
        child_map(nodes, dir).dom().finite(),
{
    let f = |k: Seq<char>| (base_name(k), k);
    nodes.dom().lemma_map_finite(f);
    let image = nodes.dom().map(f);
    assert forall|k: (Seq<char>, Seq<char>)| child_map(nodes, dir).dom().contains(k) implies
        image.contains(k) by {
        assert(k == f(k.1));
    }
    assert(child_map(nodes, dir).dom().subset_of(image));
    vstd::set_lib::lemma_set_subset_finite(image, child_map(nodes, dir).dom());
}

/// What was written is what is read: a read of the written range gives the
/// written bytes.
pub proof fn law_write_then_read(data: Seq<u8>, start: int, bytes: Seq<u8>)
    requires
        0 <= start,
    ensures
        crate::mountfs::slice_of(overwritten(data, start, bytes), start, bytes.len() as int)
            == bytes,
        forall|i: int|
            0 <= i < data.len() && !(start <= i < start + bytes.len()) ==> overwritten(
                data,
                start,
                bytes,
            )[i] == data[i],
{
    assert(crate::mountfs::slice_of(overwritten(data, start, bytes), start, bytes.len() as int)
        =~= bytes);
}

/// After a rename everything below the old path is below the new one, with the
/// same content, and nothing is left below the old path, if neither path lies
/// below the other.
pub proof fn law_rename_moves_the_subtree(
    nodes: Map<Seq<char>, NodeModel>,
    from: Seq<char>,
    to: Seq<char>,
    k: Seq<char>,
)
    requires
        nodes.contains_key(k),
        lies_under(k, from),
        !lies_under(to, from),
        !lies_under(from, to),
    ensures
        moved_nodes(nodes, from, to).contains_key(moved_path(k, from, to)),
        moved_nodes(nodes, from, to)[moved_path(k, from, to)] == nodes[k],
        !moved_nodes(nodes, from, to).contains_key(k),
{
    let new_key = moved_path(k, from, to);
    assert(came_from(nodes, from, to, new_key, k));
    let a = choose|a: Seq<char>| came_from(nodes, from, to, new_key, a);
    lemma_moved_injective(a, k, from, to);
    if exists|x: Seq<char>| came_from(nodes, from, to, k, x) {
        let x = choose|x: Seq<char>| came_from(nodes, from, to, k, x);
        // `k` would lie below both paths.
        let n = from.len() as int;
        let t = to.len() as int;
        assert(k.take(n) =~= from);
        assert(k.take(t) =~= to) by {
            assert(k =~= to + x.skip(n));
        }
        if n <= t {
            assert(to.take(n) =~= from) by {
                assert(to.take(n) =~= k.take(n));
            }
            if n < t {
                assert(k.len() > n);
                assert(to[n] == k[n]);
            } else {
                assert(to =~= from);
            }
        } else {
            assert(from.take(t) =~= to) by {
                assert(from.take(t) =~= k.take(t));
            }
            assert(from[t] == k[t]);
            assert(k[t] == x.skip(n)[0]);
        }
    }
}

} // verus!
