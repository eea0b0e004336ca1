//! What holds of the passthrough mount.

use vstd::prelude::*;

use crate::cache::{law_new_data_is_admitted, lemma_invalidated_gone};
use crate::codec::{be64, lemma_be64_injective};
use crate::mountfs::{
    full_listing, kind_of, shows, slice_of, Attributes, FileKind, Metadata, MountCall, MountModel,
    MAX_BACKGROUND, MAX_CACHE_FILE, ROOT_INO, TTL_SECS,
};
use crate::paths::{is_part, law_child_path, path_key, path_parts, DOT};

verus! {

/// A read gives the bytes from the offset on: as many as were asked for, or all
/// that are left, and none behind the end.
pub proof fn law_read_gives_the_range(data: Seq<u8>, offset: int, size: int, i: int)
    requires
        0 <= offset,
        0 <= size,
    ensures
        offset >= data.len() ==> slice_of(data, offset, size).len() == 0,
        offset < data.len() && offset + size <= data.len() ==> slice_of(data, offset, size).len()
            == size,
        offset < data.len() && offset + size > data.len() ==> slice_of(data, offset, size).len()
            == data.len() - offset,
        0 <= i < slice_of(data, offset, size).len() ==> slice_of(data, offset, size)[i]
            == data[offset + i],
{
}

/// Reads one behind the other give the whole content, however it is cut.
pub proof fn law_reads_make_up_the_content(data: Seq<u8>, at: int, size: int)
    requires
        0 <= at <= data.len(),
        data.len() <= size,
    ensures
        slice_of(data, 0, at) + slice_of(data, at, size) == data,
        slice_of(data, 0, size) == data,
{
    assert(slice_of(data, 0, at) + slice_of(data, at, size) =~= data);
    assert(slice_of(data, 0, size) =~= data);
}

/// A file that was pulled into RAM is served from there with its content, if it
/// is no larger than a fifth of the budget.
pub proof fn law_loaded_file_is_served(m: MountModel, ino: u64, content: Seq<u8>)
    requires
        m.cache.bounded(),
        m.cache.cap >= 10,
        content.len() <= m.cache.cap / 5,
    ensures
        m.cache.inserted(be64(ino), content).lookup(be64(ino)) == Some(content),
{
    law_new_data_is_admitted(m.cache, be64(ino), content);
}

/// A directory is shown as one, another object as a symbolic link if it is one,
/// and everything else as a regular file.
pub proof fn law_kinds(link: bool)
    ensures
        kind_of(true, link) == FileKind::Directory,
        kind_of(false, true) == FileKind::Symlink,
        kind_of(false, false) == FileKind::RegularFile,
{
}

/// The attributes show the size as it is, the fewest units of 512 bytes that
/// hold it, the permission bits without the kind, no time before the epoch, and
/// the number and the owner as they are.
pub proof fn law_attributes(a: Attributes, ino: u64, m: Metadata)
    requires
        shows(a, ino, m),
        m.len + 511 <= u64::MAX,
    ensures
        a.ino == ino,
        a.size == m.len,
        a.blocks * 512 >= m.len,
        a.blocks * 512 < m.len + 512,
        m.ctime >= 0 ==> a.ctime == m.ctime,
        m.ctime < 0 ==> a.ctime == 0,
        a.perm == m.mode & 0o7777,
        a.uid == m.uid,
        a.gid == m.gid,
        m.nlink <= u32::MAX ==> a.nlink == m.nlink,
        m.rdev <= u32::MAX ==> a.rdev == m.rdev,
        m.is_dir ==> a.kind == FileKind::Directory,
        !m.is_dir && m.is_symlink ==> a.kind == FileKind::Symlink,
        !m.is_dir && !m.is_symlink ==> a.kind == FileKind::RegularFile,
{
}

/// A listing begins with the directory itself and its parent, and then has the
/// children in the order in which they were found.
pub proof fn law_full_listing(ino: u64, children: Seq<(u64, FileKind, String)>, i: int)
    requires
        0 <= i < children.len(),
    ensures
        full_listing(ino, children).len() == children.len() + 2,
        full_listing(ino, children)[0] == (ino, FileKind::Directory, "."@),
        full_listing(ino, children)[1] == (ino, FileKind::Directory, ".."@),
        full_listing(ino, children)[i + 2] == (children[i].0, children[i].1, children[i].2@),
{
}

/// Every open for reading is counted, for the file that was opened and no other;
/// an open for writing only is not. Each open has a handle of its own.
pub proof fn law_opens_are_counted(m: MountModel, ino: u64, other: u64)
    requires
        m.opens(ino) < u32::MAX,
        m.next_fh < u64::MAX,
    ensures
        m.opened(ino, true).opens(ino) == m.opens(ino) + 1,
        m.opened(ino, false).opens(ino) == m.opens(ino),
        other != ino ==> m.opened(ino, true).opens(other) == m.opens(other),
        m.opened(ino, true).next_fh == m.next_fh + 1,
        m.opened(ino, false).next_fh == m.next_fh + 1,
        m.opened(ino, true).paths == m.paths,
        m.opened(ino, true).cache == m.cache,
{
}

/// A file is pulled into RAM exactly where it was opened for reading at least
/// twice and is not there; files of up to 256 MiB may be, and the kernel may
/// cache what it is told for five seconds.
pub proof fn law_hot_files(m: MountModel, ino: u64)
    ensures
        m.hot(ino) <==> m.opens(ino) >= 2 && !m.cache.contains(be64(ino)),
        MAX_CACHE_FILE == 268_435_456,
        TTL_SECS == 5,
{
}

/// The root has the first number, as the kernel expects, and the kernel may have
/// 64 requests waiting.
pub proof fn law_kernel_settings()
    ensures
        ROOT_INO == 1,
        MAX_BACKGROUND == 64,
{
}

/// Forgetting a path takes its number, its count and its cached content away,
/// and nothing of any other path.
pub proof fn law_forget(m: MountModel, path: Seq<u8>, other: Seq<u8>)
    requires
        m.sound(),
        m.cache.keys_distinct(),
        m.knows(path),
    ensures
        ({
            let after = m.forgotten(path);
            let ino = m.number_of(path);
            &&& !after.knows(path)
            &&& !after.paths.contains_key(ino)
            &&& after.opens(ino) == 0
            &&& !after.cache.contains(be64(ino))
            &&& m.knows(other) && path_key(other) != path_key(path) ==> {
                let o = m.number_of(other);
                &&& after.knows(other)
                &&& after.number_of(other) == o
                &&& after.paths.contains_key(o) && after.paths[o] == m.paths[o]
                &&& after.opens(o) == m.opens(o)
                &&& after.cache.lookup(be64(o)) == m.cache.lookup(be64(o))
            }
            &&& after.next_ino == m.next_ino
        }),
{
    let ino = m.number_of(path);
    lemma_invalidated_gone(m.cache, be64(ino));
    if m.knows(other) && path_key(other) != path_key(path) {
        let o = m.number_of(other);
        assert(m.paths.contains_key(o) && m.paths.contains_key(ino));
        if o == ino {
            assert(path_key(m.paths[o]) == path_key(other));
            assert(path_key(m.paths[ino]) == path_key(path));
        }
        if be64(o) == be64(ino) {
            lemma_be64_injective(o, ino);
        }
        crate::cachelaws::law_invalidate(m.cache, be64(ino), be64(o));
    }
}

/// A path that is not known gets the next number, which no path has had, and is
/// then known by it.
pub proof fn law_new_number(m: MountModel, path: Seq<u8>)
    requires
        m.sound(),
        m.next_ino < u64::MAX,
        !m.knows(path),
    ensures
        m.number_of(path) == m.next_ino,
        !m.paths.contains_key(m.next_ino),
        m.numbered(path).knows(path),
        m.numbered(path).paths.contains_key(m.next_ino),
        m.numbered(path).paths[m.next_ino] == path,
        m.numbered(path).next_ino == m.next_ino + 1,
        m.numbered(path).cache == m.cache,
        m.numbered(path).freq == m.freq,
{
}

/// A file that was written is not served from its old copy and has to be read
/// anew before it is held in RAM; other files are not touched.
pub proof fn law_written_file_is_cold(m: MountModel, ino: u64, other: u64)
    requires
        m.cache.keys_distinct(),
    ensures
        m.written(ino).cache.lookup(be64(ino)) is None,
        m.written(ino).opens(ino) == 0,
        other != ino ==> m.written(ino).opens(other) == m.opens(other) && m.written(
            ino,
        ).cache.lookup(be64(other)) == m.cache.lookup(be64(other)),
        m.written(ino).paths == m.paths,
{
    lemma_invalidated_gone(m.cache, be64(ino));
    if other != ino {
        if be64(other) == be64(ino) {
            lemma_be64_injective(other, ino);
        }
        crate::cachelaws::law_invalidate(m.cache, be64(ino), be64(other));
    }
}

/// A file that was created anew, written or resized is not served from an old
/// copy.
pub proof fn law_changed_file_is_not_served(m: MountModel, path: Seq<u8>, ino: u64)
    requires
        m.cache.keys_distinct(),
    ensures
        m.after((MountCall::Create { path })).cache.lookup(be64(m.number_of(path))) is None,
        m.after((MountCall::Create { path })).number_of(path) == m.number_of(path),
        m.after((MountCall::Write { ino })).cache.lookup(be64(ino)) is None,
        m.after((MountCall::Resize { ino })).cache.lookup(be64(ino)) is None,
{
    lemma_invalidated_gone(m.cache, be64(m.number_of(path)));
    lemma_invalidated_gone(m.cache, be64(ino));
}

/// Both paths of a rename are forgotten: what is found there later gets a new
/// number.
pub proof fn law_renamed_paths_are_forgotten(m: MountModel, from: Seq<u8>, to: Seq<u8>)
    ensures
        !m.after((MountCall::Rename { from, to })).knows(from),
        !m.after((MountCall::Rename { from, to })).knows(to),
        !m.after((MountCall::Forget { path: from })).knows(from),
{
}

/// A name is looked up in the directory that has the number, and nowhere where
/// no path has it.
pub proof fn law_child(m: MountModel, parent: u64, name: Seq<u8>)
    requires
        is_part(name),
        name != seq![DOT],
    ensures
        m.paths.contains_key(parent) && m.paths[parent].len() > 0 ==> m.child(parent, name) is Some
            && path_parts(m.child(parent, name).unwrap()) == path_parts(m.paths[parent]).push(name),
        !m.paths.contains_key(parent) ==> m.child(parent, name) is None,
{
    if m.paths.contains_key(parent) && m.paths[parent].len() > 0 {
        law_child_path(m.paths[parent], name);
    }
}

} // verus!
