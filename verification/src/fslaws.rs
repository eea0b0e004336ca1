//! What holds of a filesystem over several operations.

use vstd::prelude::*;

use crate::blockstore::{
    bytes_at, covered, digest, law_compaction_keeps_live_blocks, law_put_then_get,
    law_store_indexes_every_block, law_store_keeps_cache_current, law_store_keeps_log_intact,
    law_stored_blocks_are_read_back, lemma_compacted_entries, BlocksModel, Extent, BLOCK_SIZE,
};
use crate::fs::{
    block_bytes, blocks_of, chunks, components, digests, dir_count, file_inode, inode_refers_to,
    joined, kinds, lemma_refers_push, referenced_bytes, references, refers_to, sorted_addresses,
    unique_bytes, FsInfo, FsModel, ReadModel, INLINE_MAX,
};
use crate::inode::kind_text;
use crate::order::OrderedKey;
use crate::sorted::{
    ascending, lemma_finite_map_has_entries, lemma_map_of_entry, lemma_map_of_key, map_of,
};
use crate::tree::{
    dir_entries, diverges, empty_dir, graft, law_ancestors_are_directories,
    law_diverging_paths_unchanged, law_graft_is_copy_on_write, law_graft_leaves_nothing_dangling,
    law_old_paths_never_change, law_remove_path, law_set_path_leads_to_leaf,
    law_set_succeeds_on_open_paths, law_walk_succeeds, law_walk_visits_every_path, lemma_extended_transitive,
    lemma_put_extends, lemma_put_whole, lemma_resolve_push, lemma_resolved_is_there,
    lemma_visited_all_contains, listed, open_to, resolve, visited, visited_all, Fault, InodeModel,
    Tree,
};

verus! {

/// The chunks of a content make it up again.
pub proof fn law_chunks_make_up_the_content(data: Seq<u8>)
    ensures
        joined(chunks(data)) == data,
{
    lemma_joined_chunks(data, chunks(data).len() as int);
    assert(chunks(data).take(chunks(data).len() as int) =~= chunks(data));
    assert(data.take(data.len() as int) =~= data);
}

proof fn lemma_joined_chunks(data: Seq<u8>, n: int)
    requires
        0 <= n <= chunks(data).len(),
    ensures
        joined(chunks(data).take(n)) == data.take(
            if n * BLOCK_SIZE <= data.len() {
                n * BLOCK_SIZE
            } else {
                data.len() as int
            },
        ),
    decreases n,
{
    let c = chunks(data);
    if n > 0 {
        lemma_joined_chunks(data, n - 1);
        assert(c.take(n).drop_last() =~= c.take(n - 1));
        assert(c.take(n).last() == c[n - 1]);
        assert(joined(c.take(n)) =~= data.take(
            if n * BLOCK_SIZE <= data.len() {
                n * BLOCK_SIZE
            } else {
                data.len() as int
            },
        ));
    } else {
        assert(joined(c.take(n)) =~= data.take(0));
    }
}

/// `read` is a complete read of the file that `path` leads to, begun with
/// [`crate::fs::Filesystem::read_file`] and brought to its end with
/// [`crate::fs::Filesystem::fetch`] and [`crate::fs::Filesystem::supply`].
pub open spec fn full_read(m: FsModel, path: Seq<char>, read: ReadModel) -> bool {
    &&& read.verified()
    &&& read.complete()
    &&& m.inode_at(path) matches Ok(InodeModel::File { blocks, data, .. })
        && ReadModel::start(blocks, data) == (ReadModel { parts: Seq::empty(), ..read })
}

/// A read of a file gives back the content that it was made from, whatever the
/// log held: the only way to get anything else is a block that was read with
/// other bytes than the one that was written, and the same digest.
pub proof fn law_read_gives_back_the_content(
    m: FsModel,
    path: Seq<char>,
    data: Seq<u8>,
    mtime: i64,
    read: ReadModel,
)
    requires
        m.inode_at(path) == Ok::<InodeModel, Fault>(file_inode(data, mtime)),
        full_read(m, path, read),
    ensures
        read.content() == data || exists|i: int|
            0 <= i < blocks_of(data).len() && #[trigger] read.parts[i] != blocks_of(data)[i]
                && digest(read.parts[i]) == digest(blocks_of(data)[i]),
{
    let want = blocks_of(data);
    assert(read.wanted == digests(want));
    if data.len() <= INLINE_MAX {
        assert(read.parts =~= Seq::empty());
        assert(read.content() =~= data);
    } else {
        law_chunks_make_up_the_content(data);
        assert(want == chunks(data));
        assert(digests(want).len() > 0);
        if forall|i: int| 0 <= i < want.len() ==> #[trigger] read.parts[i] == want[i] {
            assert(read.parts =~= want);
            assert(read.content() =~= data);
        } else {
            let i = choose|i: int| 0 <= i < want.len() && #[trigger] read.parts[i] != want[i];
            assert(digest(read.parts[i]) == read.wanted[i]);
            assert(digests(want)[i] == digest(want[i]));
        }
    }
}

/// What placing an inode does to the tree.
pub proof fn lemma_placed(m: FsModel, path: Seq<char>, inode: InodeModel, now: i64)
    requires
        m.sound(),
        components(path).len() > 0,
        m.ids_left(2 * components(path).len() + 1),
        inode is Dir ==> inode->entries == Map::<Seq<char>, u64>::empty(),
    ensures
        ({
            let (after, r) = m.placed(path, inode, now);
            &&& after.sound()
            &&& m.tree().extended_by(after.tree())
            &&& after.tree().inodes.contains_key(m.state.next_inode)
            &&& after.inodes[m.state.next_inode] == inode
            &&& r is Ok <==> open_to(m.inodes, m.state.root, components(path))
            &&& r is Ok ==> after.inode_at(path) == Ok::<InodeModel, Fault>(inode)
            &&& r is Err ==> after.state.root == m.state.root && after.state.txg == m.state.txg
            &&& r is Ok ==> after.state.txg == m.state.txg + 1
        }),
{
    let comps = components(path);
    let t = m.tree();
    let id = m.state.next_inode;
    lemma_put_extends(t, inode);
    let t1 = t.put(inode);
    let root = m.state.root;
    law_graft_is_copy_on_write(t1, root, comps, Some(id), now);
    law_set_succeeds_on_open_paths(t1, root, comps, id, now);
    lemma_open_after_put(t, inode, root, comps);
    let (t2, r) = graft(t1, root, comps, Some(id), now);
    lemma_extended_transitive(t, t1, t2);
    let (after, r2) = m.placed(path, inode, now);
    assert(m.with_tree(t1).tree() =~= t1);
    assert(after.tree() =~= t2);
    assert(t1.inodes.contains_key(id) && t1.inodes[id] == inode);
    assert(t2.inodes.contains_key(id) && t2.inodes[id] == inode);
    if r is Ok {
        law_set_path_leads_to_leaf(t1, root, comps, id, now, Seq::empty());
        assert(comps + Seq::<Seq<char>>::empty() =~= comps);
        assert(after.lookup(path) == Ok::<u64, Fault>(id));
        assert(after.inode_at(path) == Ok::<InodeModel, Fault>(inode));
    }
    assert(after.sound());
    assert(m.tree().extended_by(after.tree()));
}

proof fn lemma_open_after_put(t: Tree, inode: InodeModel, id: u64, comps: Seq<Seq<char>>)
    requires
        t.sound(),
        t.extended_by(t.put(inode)),
        id < t.next,
    ensures
        open_to(t.put(inode).inodes, id, comps) == open_to(t.inodes, id, comps),
    decreases comps.len(),
{
    if comps.len() > 1 && t.inodes.contains_key(id) && t.inodes[id] is Dir
        && t.inodes[id]->entries.contains_key(comps[0]) {
        assert(t.inodes[id]->entries[comps[0]] < id);
        lemma_open_after_put(t, inode, t.inodes[id]->entries[comps[0]], comps.drop_first());
    }
}

/// A file can be written exactly where nothing on the way to it is a file;
/// afterwards the path leads to the file.
pub proof fn law_write_then_stat(m: FsModel, path: Seq<char>, data: Seq<u8>, now: i64)
    requires
        m.sound(),
        components(path).len() > 0,
        m.ids_left(2 * components(path).len() + 1),
    ensures
        m.written(path, data, now).1 is Ok <==> open_to(m.inodes, m.state.root, components(path)),
        m.written(path, data, now).1 is Ok ==> m.written(path, data, now).0.inode_at(path) == Ok::<
            InodeModel,
            Fault,
        >(file_inode(data, now)),
        m.written(path, data, now).1 is Ok ==> m.written(path, data, now).0.state.txg
            == m.state.txg + 1,
{
    let base = FsModel {
        blocks: m.blocks.stored_all(blocks_of(data), blocks_of(data).len() as int),
        ..m
    };
    assert(base.tree() == m.tree());
    lemma_placed(base, path, file_inode(data, now), now);
}

/// Every block of a file that was written stands in the log with the bytes
/// whose digest is its address, if the log was intact before and what
/// [`crate::fs::Filesystem::log_tail`] says was appended to it.
pub proof fn law_written_blocks_are_in_the_log(
    m: FsModel,
    path: Seq<char>,
    data: Seq<u8>,
    now: i64,
    log: Seq<u8>,
)
    requires
        m.sound(),
        m.blocks.intact(log),
        components(path).len() > 0,
        m.ids_left(2 * components(path).len() + 1),
        log.len() + m.blocks.appended_all(blocks_of(data), blocks_of(data).len() as int).len()
            <= u64::MAX,
    ensures
        ({
            let after = m.written(path, data, now).0;
            let n = blocks_of(data).len() as int;
            let new_log = log + m.blocks.appended_all(blocks_of(data), n);
            &&& after.blocks.intact(new_log)
            &&& forall|i: int|
                0 <= i < n ==> {
                    let k = #[trigger] digests(blocks_of(data))[i];
                    &&& after.blocks.index.contains_key(k)
                    &&& digest(bytes_at(new_log, after.blocks.index[k])) == k
                }
        }),
{
    let b = blocks_of(data);
    let n = b.len() as int;
    assert forall|i: int| 0 <= i < n implies (#[trigger] b[i]).len() <= u32::MAX by {
        assert(b[i] == chunks(data)[i]);
    }
    law_store_keeps_log_intact(m.blocks, log, b, n);
    law_store_indexes_every_block(m.blocks, b, n);
    let after = m.written(path, data, now).0;
    assert(after.blocks == m.blocks.stored_all(b, n));
    let new_log = log + m.blocks.appended_all(b, n);
    assert forall|i: int| 0 <= i < n implies {
        let k = #[trigger] digests(b)[i];
        &&& after.blocks.index.contains_key(k)
        &&& digest(bytes_at(new_log, after.blocks.index[k])) == k
    } by {
        assert(digests(b)[i] == digest(b[i]));
        assert(after.blocks.index.contains_key(digest(b[i])));
    }
}

/// What a complete read of the file that a path leads to gives: the content in
/// the inode, or the blocks, each from the cache or, where it is not there,
/// from the log, as [`crate::fs::Filesystem::fetch`] and
/// [`crate::fs::Filesystem::supply`] take them.
pub open spec fn content_read(m: FsModel, path: Seq<char>, log: Seq<u8>) -> Result<
    Seq<u8>,
    Fault,
> {
    match m.inode_at(path) {
        Err(e) => Err(e),
        Ok(InodeModel::Dir { .. }) => Err(Fault::IsDirectory(path)),
        Ok(InodeModel::File { blocks, data, .. }) => {
            match m.blocks.blocks_read(blocks, log, blocks.len() as int).1 {
                Err(e) => Err(e),
                Ok(parts) => Ok((ReadModel { parts, ..ReadModel::start(blocks, data) }).content()),
            }
        },
    }
}

/// A read of a file gives back what was written last, from the cache or from
/// the log: if the log was intact, what [`crate::fs::Filesystem::log_tail`] says
/// was appended to it, and no block of the content clashes with a stored block
/// or with another one, then the content is exactly the one that was written.
/// Every directory on the way is there, and one transaction was published.
pub proof fn law_write_then_read(
    m: FsModel,
    path: Seq<char>,
    data: Seq<u8>,
    now: i64,
    log: Seq<u8>,
)
    requires
        m.sound(),
        m.blocks.intact(log),
        components(path).len() > 0,
        m.ids_left(2 * components(path).len() + 1),
        log.len() + m.blocks.appended_all(blocks_of(data), blocks_of(data).len() as int).len()
            <= u64::MAX,
        m.blocks.clash_free(log, blocks_of(data)),
        m.written(path, data, now).1 is Ok,
    ensures
        ({
            let after = m.written(path, data, now).0;
            let n = blocks_of(data).len() as int;
            let new_log = log + m.blocks.appended_all(blocks_of(data), n);
            &&& content_read(after, path, new_log) == Ok::<Seq<u8>, Fault>(data)
            &&& after.blocks.intact(new_log)
            &&& after.state.txg == m.state.txg + 1
            &&& forall|i: int|
                0 <= i < components(path).len() ==> {
                    let at = resolve(
                        after.inodes,
                        after.state.root,
                        #[trigger] components(path).take(i),
                    );
                    at is Ok && after.inodes.contains_key(at->Ok_0) && after.inodes[at->Ok_0] is Dir
                }
        }),
{
    let b = blocks_of(data);
    let n = b.len() as int;
    let after = m.written(path, data, now).0;
    let new_log = log + m.blocks.appended_all(b, n);
    assert forall|i: int| 0 <= i < n implies (#[trigger] b[i]).len() <= u32::MAX by {
        assert(b[i] == chunks(data)[i]);
    }
    law_write_then_stat(m, path, data, now);
    law_store_keeps_log_intact(m.blocks, log, b, n);
    law_put_then_get(m.blocks, log, b);
    assert(after.blocks == m.blocks.stored_all(b, n));
    assert(digests(b) =~= Seq::new(b.len(), |i: int| digest(b[i])));
    assert(after.blocks.blocks_read(digests(b), new_log, n).1 == Ok::<Seq<Seq<u8>>, Fault>(b));
    if data.len() > INLINE_MAX {
        law_chunks_make_up_the_content(data);
        assert(digests(b).len() > 0);
        assert(Seq::<u8>::empty() + joined(b) =~= data);
    } else {
        assert(joined(b) =~= Seq::empty());
        assert(data + Seq::<u8>::empty() =~= data);
    }
    assert forall|i: int| 0 <= i < components(path).len() implies {
        let at = resolve(after.inodes, after.state.root, #[trigger] components(path).take(i));
        at is Ok && after.inodes.contains_key(at->Ok_0) && after.inodes[at->Ok_0] is Dir
    } by {
        law_ancestors_are_directories(after.inodes, after.state.root, components(path), i);
    }
}

/// A write takes nothing away from the log: what was stored before still stands
/// where it stood, with the same bytes.
pub proof fn law_write_keeps_stored_blocks(
    m: FsModel,
    path: Seq<char>,
    data: Seq<u8>,
    now: i64,
    log: Seq<u8>,
    k: Seq<u8>,
)
    requires
        m.blocks.intact(log),
        m.blocks.index.contains_key(k),
    ensures
        ({
            let after = m.written(path, data, now).0;
            let n = blocks_of(data).len() as int;
            let new_log = log + m.blocks.appended_all(blocks_of(data), n);
            &&& after.blocks.index.contains_key(k)
            &&& after.blocks.index[k] == m.blocks.index[k]
            &&& bytes_at(new_log, after.blocks.index[k]) == bytes_at(log, m.blocks.index[k])
        }),
{
    let b = blocks_of(data);
    let n = b.len() as int;
    law_store_indexes_every_block(m.blocks, b, n);
    assert(m.blocks.stored_all(b, n).index.contains_key(k));
    assert(m.blocks.stored_all(b, n).index[k] == m.blocks.index[k]);
    let new_log = log + m.blocks.appended_all(b, n);
    assert(bytes_at(new_log, m.blocks.index[k]) =~= bytes_at(log, m.blocks.index[k]));
}

/// A small file uses no blocks: the block store and the log stay as they are.
pub proof fn law_small_files_use_no_blocks(m: FsModel, path: Seq<char>, data: Seq<u8>, now: i64)
    requires
        data.len() <= INLINE_MAX,
    ensures
        m.written(path, data, now).0.blocks == m.blocks,
        m.blocks.appended_all(blocks_of(data), blocks_of(data).len() as int) == Seq::<u8>::empty(),
{
}

/// Content that is stored already is not stored again, under whatever path it
/// is written.
pub proof fn law_same_content_is_stored_once(b: BlocksModel, data: Seq<u8>)
    ensures
        ({
            let blocks = blocks_of(data);
            let n = blocks.len() as int;
            let once = b.stored_all(blocks, n);
            &&& once.stored_all(blocks, n) == once
            &&& once.appended_all(blocks, n) == Seq::<u8>::empty()
        }),
{
    let blocks = blocks_of(data);
    let n = blocks.len() as int;
    law_store_indexes_every_block(b, blocks, n);
    lemma_stored_again(b.stored_all(blocks, n), blocks, n);
}

proof fn lemma_stored_again(b: BlocksModel, blocks: Seq<Seq<u8>>, n: int)
    requires
        0 <= n <= blocks.len(),
        forall|i: int| 0 <= i < n ==> b.index.contains_key(digest(#[trigger] blocks[i])),
    ensures
        b.stored_all(blocks, n) == b,
        b.appended_all(blocks, n) == Seq::<u8>::empty(),
    decreases n,
{
    if n > 0 {
        lemma_stored_again(b, blocks, n - 1);
        assert(b.index.contains_key(digest(blocks[n - 1])));
        assert(b.appended_all(blocks, n) =~= Seq::<u8>::empty());
    }
}

/// A write leaves every path that does not lead through the written one, nor
/// the written one through it, as it was: it leads to the same inode, which is
/// unchanged, or nowhere.
pub proof fn law_write_leaves_other_paths(
    m: FsModel,
    path: Seq<char>,
    data: Seq<u8>,
    now: i64,
    other: Seq<char>,
)
    requires
        m.sound(),
        listed(m.inodes),
        components(path).len() > 0,
        m.ids_left(2 * components(path).len() + 1),
        diverges(components(other), components(path)),
    ensures
        ({
            let after = m.written(path, data, now).0;
            &&& after.lookup(other) is Ok <==> m.lookup(other) is Ok
            &&& m.lookup(other) is Ok ==> after.lookup(other) == m.lookup(other)
                && after.inode_at(other) == m.inode_at(other) && after.listing(other) == m.listing(
                other,
            )
        }),
{
    let base = FsModel {
        blocks: m.blocks.stored_all(blocks_of(data), blocks_of(data).len() as int),
        ..m
    };
    assert(base.tree() == m.tree());
    lemma_placed(base, path, file_inode(data, now), now);
    lemma_placed_leaves_others(base, path, file_inode(data, now), now, other);
    let after = m.written(path, data, now).0;
    if m.lookup(other) is Ok {
        lemma_listing_kept(m, after, other);
    }
}

/// A write to one path leaves the content of a file that the path does not lead
/// to or through as it was, if all of its blocks were stored, from the cache or
/// from the log.
pub proof fn law_write_leaves_other_content(
    m: FsModel,
    path: Seq<char>,
    data: Seq<u8>,
    now: i64,
    other: Seq<char>,
    log: Seq<u8>,
)
    requires
        m.sound(),
        listed(m.inodes),
        m.blocks.intact(log),
        m.blocks.cache_current(log),
        components(path).len() > 0,
        m.ids_left(2 * components(path).len() + 1),
        log.len() + m.blocks.appended_all(blocks_of(data), blocks_of(data).len() as int).len()
            <= u64::MAX,
        m.blocks.clash_free(log, blocks_of(data)),
        diverges(components(other), components(path)),
        m.inode_at(other) is Ok,
        m.inode_at(other)->Ok_0 is File ==> forall|i: int|
            0 <= i < m.inode_at(other)->Ok_0->blocks.len() ==> m.blocks.index.contains_key(
                #[trigger] m.inode_at(other)->Ok_0->blocks[i],
            ),
    ensures
        ({
            let after = m.written(path, data, now).0;
            let n = blocks_of(data).len() as int;
            let new_log = log + m.blocks.appended_all(blocks_of(data), n);
            &&& content_read(after, other, new_log) == content_read(m, other, log)
            &&& after.blocks.intact(new_log)
            &&& after.blocks.cache_current(new_log)
        }),
{
    let b = blocks_of(data);
    let n = b.len() as int;
    let after = m.written(path, data, now).0;
    let new_log = log + m.blocks.appended_all(b, n);
    assert forall|i: int| 0 <= i < n implies (#[trigger] b[i]).len() <= u32::MAX by {
        assert(b[i] == chunks(data)[i]);
    }
    law_store_keeps_log_intact(m.blocks, log, b, n);
    law_store_keeps_cache_current(m.blocks, log, b);
    law_write_leaves_other_paths(m, path, data, now, other);
    assert(after.blocks == m.blocks.stored_all(b, n));
    let inode = m.inode_at(other)->Ok_0;
    if inode is File {
        let wanted = inode->blocks;
        let bytes = Seq::new(wanted.len(), |i: int| bytes_at(log, m.blocks.index[wanted[i]]));
        assert forall|i: int| 0 <= i < wanted.len() implies m.blocks.answers(
            log,
            wanted[i],
            #[trigger] bytes[i],
        ) && after.blocks.answers(new_log, wanted[i], bytes[i]) by {
            assert(m.blocks.index.contains_key(wanted[i]));
            law_write_keeps_stored_blocks(m, path, data, now, log, wanted[i]);
        }
        law_stored_blocks_are_read_back(m.blocks, log, wanted, bytes, wanted.len() as int);
        law_stored_blocks_are_read_back(after.blocks, new_log, wanted, bytes, wanted.len() as int);
    }
}

/// The kinds of objects that were there do not change.
proof fn lemma_kinds_kept(m: FsModel, later: FsModel, all: Seq<(Seq<char>, u64)>, n: int)
    requires
        m.sound(),
        m.tree().extended_by(later.tree()),
        0 <= n <= all.len(),
        forall|i: int| 0 <= i < all.len() ==> (#[trigger] all[i]).1 < m.state.next_inode,
    ensures
        kinds(later.inodes, all, n) == kinds(m.inodes, all, n),
    decreases n,
{
    if n > 0 {
        lemma_kinds_kept(m, later, all, n - 1);
        lemma_inode_kept(m, later, all[n - 1].1);
    }
}

pub proof fn lemma_placed_leaves_others(
    m: FsModel,
    path: Seq<char>,
    inode: InodeModel,
    now: i64,
    other: Seq<char>,
)
    requires
        m.sound(),
        components(path).len() > 0,
        m.ids_left(2 * components(path).len() + 1),
        inode is Dir ==> inode->entries == Map::<Seq<char>, u64>::empty(),
        diverges(components(other), components(path)),
    ensures
        ({
            let after = m.placed(path, inode, now).0;
            &&& after.lookup(other) is Ok <==> m.lookup(other) is Ok
            &&& m.lookup(other) is Ok ==> after.lookup(other) == m.lookup(other)
                && after.inode_at(other) == m.inode_at(other)
        }),
{
    let comps = components(path);
    let q = components(other);
    let t = m.tree();
    let id = m.state.next_inode;
    let root = m.state.root;
    let t1 = t.put(inode);
    lemma_put_extends(t, inode);
    lemma_placed(m, path, inode, now);
    let (after, r) = m.placed(path, inode, now);
    assert(m.with_tree(t1).tree() =~= t1);
    law_old_paths_never_change(t, t1, root, q);
    law_graft_is_copy_on_write(t1, root, comps, Some(id), now);
    let (t2, g) = graft(t1, root, comps, Some(id), now);
    assert(after.tree() =~= t2);
    if g is Ok {
        if m.lookup(other) is Ok {
            law_diverging_paths_unchanged(t1, root, comps, Some(id), now, q, m.lookup(other)->Ok_0);
        }
        if after.lookup(other) is Ok {
            law_diverging_paths_unchanged(
                t1,
                root,
                comps,
                Some(id),
                now,
                q,
                after.lookup(other)->Ok_0,
            );
        }
    } else {
        law_old_paths_never_change(t, t2, root, q);
    }
    if m.lookup(other) is Ok {
        lemma_inode_kept(m, after, m.lookup(other)->Ok_0);
    }
}

/// An id that was given out has the same inode, or none, in every later tree.
proof fn lemma_inode_kept(m: FsModel, later: FsModel, id: u64)
    requires
        m.sound(),
        m.tree().extended_by(later.tree()),
        id < m.state.next_inode,
    ensures
        later.inode(id) == m.inode(id),
{
    assert(m.tree().inodes.contains_key(id) ==> later.tree().inodes.contains_key(id));
    assert(later.tree().inodes.contains_key(id) && !m.tree().inodes.contains_key(id) ==> id
        >= m.tree().next);
}

/// `after` follows from `m` by copy-on-write: no inode was changed, no id given
/// out twice, the table is sound, and the snapshots are as they were. Where it
/// failed, nothing was published.
pub open spec fn copied_on_write(m: FsModel, after: FsModel, r: Result<(), Fault>) -> bool {
    &&& m.tree().extended_by(after.tree())
    &&& after.sound()
    &&& after.snapshots == m.snapshots
    &&& r is Err ==> after.state.root == m.state.root && after.state.txg == m.state.txg
}

/// A write, or an attempt, is copy-on-write.
pub proof fn law_write_is_copy_on_write(m: FsModel, path: Seq<char>, data: Seq<u8>, now: i64)
    requires
        m.sound(),
        m.ids_left(2 * components(path).len() + 1),
    ensures
        copied_on_write(m, m.written(path, data, now).0, m.written(path, data, now).1),
{
    if components(path).len() > 0 {
        let base = FsModel {
            blocks: m.blocks.stored_all(blocks_of(data), blocks_of(data).len() as int),
            ..m
        };
        assert(base.tree() == m.tree());
        lemma_placed(base, path, file_inode(data, now), now);
    }
}

/// Making a directory, or an attempt, is copy-on-write.
pub proof fn law_mkdir_is_copy_on_write(m: FsModel, path: Seq<char>, now: i64)
    requires
        m.sound(),
        m.ids_left(2 * components(path).len() + 1),
    ensures
        copied_on_write(m, m.made_dir(path, now).0, m.made_dir(path, now).1),
{
    if components(path).len() > 0 {
        lemma_placed(m, path, empty_dir(now), now);
    }
}

/// Removing a path, or an attempt, is copy-on-write.
pub proof fn law_remove_is_copy_on_write(m: FsModel, path: Seq<char>, now: i64)
    requires
        m.sound(),
        m.ids_left(2 * components(path).len()),
    ensures
        copied_on_write(m, m.removed(path, now).0, m.removed(path, now).1),
{
    let t = m.tree();
    let comps = components(path);
    if comps.len() > 0 {
        law_graft_is_copy_on_write(t, m.state.root, comps, None, now);
        let (t1, r) = graft(t, m.state.root, comps, None, now);
        assert(m.removed(path, now).0.tree() =~= t1);
    }
}

/// Renaming a path, or an attempt, is copy-on-write.
pub proof fn law_rename_is_copy_on_write(m: FsModel, from: Seq<char>, to: Seq<char>, now: i64)
    requires
        m.sound(),
        m.ids_left(2 * (components(from).len() + components(to).len())),
    ensures
        copied_on_write(m, m.renamed(from, to, now).0, m.renamed(from, to, now).1),
{
    let t = m.tree();
    let comps = components(from);
    if comps.len() > 0 && components(to).len() > 0 && m.lookup(from) is Ok {
        law_old_paths_never_change(t, t, m.state.root, comps);
        let id = m.lookup(from)->Ok_0;
        law_graft_is_copy_on_write(t, m.state.root, components(to), Some(id), now);
        let (t2, r2) = graft(t, m.state.root, components(to), Some(id), now);
        if r2 is Ok {
            law_graft_is_copy_on_write(t2, r2->Ok_0, comps, None, now);
            let (t3, r3) = graft(t2, r2->Ok_0, comps, None, now);
            lemma_extended_transitive(t, t2, t3);
            assert(m.renamed(from, to, now).0.tree() =~= t3);
        } else {
            assert(m.renamed(from, to, now).0.tree() =~= t2);
        }
    }
}

/// A rollback, or an attempt, is copy-on-write.
pub proof fn law_rollback_is_copy_on_write(m: FsModel, name: Seq<char>)
    requires
        m.sound(),
        m.state.txg < u64::MAX,
    ensures
        copied_on_write(m, m.rolled_back(name).0, m.rolled_back(name).1),
{
    let t = m.tree();
    let t1 = m.rolled_back(name).0.tree();
    assert(t1.inodes == t.inodes);
    assert forall|id: u64, x: Seq<char>|
        #![trigger t1.inodes[id]->entries[x]]
        t1.inodes.contains_key(id) && t1.inodes[id] is Dir && t1.inodes[id]->entries.contains_key(
            x,
        ) implies t1.inodes[id]->entries[x] < id by {
        assert(t.inodes[id]->entries[x] < id);
    }
}

/// A fresh filesystem is sound.
pub proof fn law_fresh_is_sound(now: i64, blocks: BlocksModel)
    ensures
        FsModel::fresh(now, blocks).sound(),
        FsModel::fresh(now, blocks).whole(),
{
}

/// No operation leaves a directory entry that leads to no inode, whether it
/// succeeds or fails, and a fresh filesystem has none.
pub proof fn law_nothing_dangles(
    m: FsModel,
    path: Seq<char>,
    other: Seq<char>,
    data: Seq<u8>,
    now: i64,
)
    requires
        m.sound(),
        m.whole(),
        m.ids_left(2 * (components(path).len() + components(other).len()) + 1),
    ensures
        FsModel::fresh(now, m.blocks).whole(),
        m.written(path, data, now).0.whole(),
        m.made_dir(path, now).0.whole(),
        m.removed(path, now).0.whole(),
        m.renamed(path, other, now).0.whole(),
        m.rolled_back(path).0.whole(),
        (FsModel { snapshots: m.snapshots.insert(path, m.state), ..m }).whole(),
        forall|live: Set<Seq<u8>>|
            (FsModel { blocks: #[trigger] m.blocks.compacted(live), ..m }).whole(),
{
    let t = m.tree();
    let root = m.state.root;
    let comps = components(path);
    if comps.len() > 0 {
        let base = FsModel {
            blocks: m.blocks.stored_all(blocks_of(data), blocks_of(data).len() as int),
            ..m
        };
        assert(base.tree() == t);
        lemma_placed_whole(base, path, file_inode(data, now), now);
        lemma_placed_whole(m, path, empty_dir(now), now);
        law_graft_is_copy_on_write(t, root, comps, None, now);
        law_graft_leaves_nothing_dangling(t, root, comps, None, now);
        let (t1, r1) = graft(t, root, comps, None, now);
        assert(m.removed(path, now).0.tree() =~= t1);
        if components(other).len() > 0 && m.lookup(path) is Ok {
            let id = m.lookup(path)->Ok_0;
            lemma_resolved_is_there(t, root, comps);
            law_graft_is_copy_on_write(t, root, components(other), Some(id), now);
            law_graft_leaves_nothing_dangling(t, root, components(other), Some(id), now);
            let (t2, r2) = graft(t, root, components(other), Some(id), now);
            if r2 is Ok {
                law_graft_is_copy_on_write(t2, r2->Ok_0, comps, None, now);
                law_graft_leaves_nothing_dangling(t2, r2->Ok_0, comps, None, now);
                let (t3, r3) = graft(t2, r2->Ok_0, comps, None, now);
                lemma_extended_transitive(t, t2, t3);
                assert(m.renamed(path, other, now).0.tree() =~= t3);
            } else {
                assert(m.renamed(path, other, now).0.tree() =~= t2);
            }
        }
    }
}

proof fn lemma_placed_whole(m: FsModel, path: Seq<char>, inode: InodeModel, now: i64)
    requires
        m.sound(),
        m.whole(),
        components(path).len() > 0,
        m.ids_left(2 * components(path).len() + 1),
        inode is Dir ==> inode->entries == Map::<Seq<char>, u64>::empty(),
    ensures
        m.placed(path, inode, now).0.whole(),
{
    let comps = components(path);
    let t = m.tree();
    let t1 = t.put(inode);
    let id = m.state.next_inode;
    lemma_put_extends(t, inode);
    lemma_put_whole(t, inode);
    law_graft_is_copy_on_write(t1, m.state.root, comps, Some(id), now);
    law_graft_leaves_nothing_dangling(t1, m.state.root, comps, Some(id), now);
    let (t2, r) = graft(t1, m.state.root, comps, Some(id), now);
    lemma_extended_transitive(t, t1, t2);
    assert(m.with_tree(t1).tree() =~= t1);
    assert(m.placed(path, inode, now).0.tree() =~= t2);
}

/// A name: not empty, and without a slash of either kind.
pub open spec fn is_name(name: Seq<char>) -> bool {
    name.len() > 0 && !name.contains('/') && !name.contains('\\')
}

/// A path with a name behind it has the name as its last component.
pub proof fn lemma_components_below(path: Seq<char>, name: Seq<char>)
    requires
        is_name(name),
    ensures
        components(path.push('/') + name) == components(path).push(name),
    decreases name.len(),
{
    let seps = seq!['/', '\\'];
    let s = path.push('/') + name;
    let c = name.last();
    assert(name[name.len() - 1] == c);
    assert(!seps.contains(c)) by {
        if seps.contains(c) {
            let i = choose|i: int| 0 <= i < seps.len() && seps[i] == c;
            assert(c == '/' || c == '\\');
        }
    }
    assert(s.last() == c);
    assert(seps[0] == '/');
    if name.len() == 1 {
        assert(s.drop_last() =~= path.push('/'));
        assert(path.push('/').drop_last() =~= path);
        assert(crate::text::runs(path.push('/'), seps) == crate::text::runs(path, seps));
        assert(s[s.len() - 2] == '/');
        assert(name =~= seq![c]);
    } else {
        let front = name.drop_last();
        assert(is_name(front)) by {
            assert forall|x: char| front.contains(x) implies name.contains(x) by {
                let i = choose|i: int| 0 <= i < front.len() && front[i] == x;
                assert(name[i] == x);
            }
        }
        lemma_components_below(path, front);
        assert(s.drop_last() =~= path.push('/') + front);
        let d = s[s.len() - 2];
        assert(d == name[name.len() - 2]);
        assert(!seps.contains(d)) by {
            if seps.contains(d) {
                let i = choose|i: int| 0 <= i < seps.len() && seps[i] == d;
                assert(d == '/' || d == '\\');
                assert(name.contains(d));
            }
        }
        let before = components(path).push(front);
        assert(before.drop_last() =~= components(path));
        assert(before.last().push(c) =~= name);
    }
}

/// The first kinds of a directory, where nothing dangles.
proof fn lemma_kinds(m: FsModel, all: Seq<(Seq<char>, u64)>, n: int)
    requires
        0 <= n <= all.len(),
        forall|i: int| 0 <= i < all.len() ==> m.inodes.contains_key((#[trigger] all[i]).1),
    ensures
        kinds(m.inodes, all, n) == Ok::<Seq<(Seq<char>, Seq<char>)>, Fault>(
            Seq::new(n as nat, |i: int| (all[i].0, kind_text(m.inodes[all[i].1]))),
        ),
    decreases n,
{
    if n > 0 {
        lemma_kinds(m, all, n - 1);
        assert(m.inodes.contains_key(all[n - 1].1));
    }
    assert(kinds(m.inodes, all, n)->Ok_0 =~= Seq::new(
        n as nat,
        |i: int| (all[i].0, kind_text(m.inodes[all[i].1])),
    ));
}

/// A directory can be listed exactly if it is one. The listing is in strictly
/// ascending order, has as many names as the directory has entries, and holds a
/// name exactly if the path with the name behind it exists, with the kind of
/// what is there.
pub proof fn law_listing_agrees_with_paths(m: FsModel, path: Seq<char>, name: Seq<char>)
    requires
        m.sound(),
        m.whole(),
        listed(m.inodes),
        is_name(name),
    ensures
        m.listing(path) is Ok <==> m.inode_at(path) is Ok && m.inode_at(path)->Ok_0 is Dir,
        m.listing(path) is Ok ==> {
            let l = m.listing(path)->Ok_0;
            let below = m.inode_at(path.push('/') + name);
            &&& l.len() == dir_entries(m.inode_at(path)->Ok_0->entries).len()
            &&& forall|i: int, j: int|
                0 <= i < j < l.len() ==> <String as OrderedKey>::before(
                    (#[trigger] l[i]).0,
                    (#[trigger] l[j]).0,
                )
            &&& (exists|i: int| 0 <= i < l.len() && (#[trigger] l[i]).0 == name) <==> below is Ok
            &&& forall|i: int|
                0 <= i < l.len() && (#[trigger] l[i]).0 == name ==> l[i].1 == kind_text(
                    below->Ok_0,
                )
        },
{
    let t = m.tree();
    let comps = components(path);
    lemma_components_below(path, name);
    lemma_resolve_push(m.inodes, m.state.root, comps, name);
    if m.lookup(path) is Ok {
        lemma_resolved_is_there(t, m.state.root, comps);
        let d = m.lookup(path)->Ok_0;
        if m.inodes[d] is Dir {
            let entries = m.inodes[d]->entries;
            let all = dir_entries(entries);
            assert forall|i: int| 0 <= i < all.len() implies m.inodes.contains_key(
                (#[trigger] all[i]).1,
            ) && entries.contains_key(all[i].0) && entries[all[i].0] == all[i].1 by {
                lemma_map_of_entry::<String, u64>(all, i);
                assert(t.inodes.contains_key(t.inodes[d]->entries[all[i].0]));
            }
            lemma_kinds(m, all, all.len() as int);
            let l = m.listing(path)->Ok_0;
            let below = m.inode_at(path.push('/') + name);
            assert(seq![name][0] == name);
            assert(seq![name].drop_first() =~= Seq::empty());
            assert(resolve(m.inodes, d, seq![name]) == if entries.contains_key(name) {
                Ok::<u64, Fault>(entries[name])
            } else {
                Err(Fault::NoSuchComponent(name))
            }) by {
                if entries.contains_key(name) {
                    assert(resolve(m.inodes, entries[name], Seq::empty()) == Ok::<u64, Fault>(
                        entries[name],
                    ));
                }
            }
            if entries.contains_key(name) {
                let i = lemma_map_of_key(all, name);
                assert(l[i].0 == name);
            }
        }
    }
}

/// A directory that was made is there and empty.
pub proof fn law_mkdir_then_list(m: FsModel, path: Seq<char>, now: i64)
    requires
        m.sound(),
        components(path).len() > 0,
        m.ids_left(2 * components(path).len() + 1),
    ensures
        m.made_dir(path, now).1 is Ok <==> open_to(m.inodes, m.state.root, components(path)),
        m.made_dir(path, now).1 is Ok ==> m.made_dir(path, now).0.inode_at(path) == Ok::<
            InodeModel,
            Fault,
        >(empty_dir(now)),
{
    lemma_placed(m, path, empty_dir(now), now);
}

/// A path can be removed exactly if it leads somewhere; afterwards it leads
/// nowhere, and paths that diverge from it are as they were.
pub proof fn law_removed_path_is_gone(m: FsModel, path: Seq<char>, now: i64, other: Seq<char>)
    requires
        m.sound(),
        components(path).len() > 0,
        m.ids_left(2 * components(path).len()),
    ensures
        m.removed(path, now).1 is Ok <==> m.lookup(path) is Ok,
        m.removed(path, now).1 is Ok ==> m.removed(path, now).0.lookup(path) == Err::<u64, Fault>(
            Fault::NoSuchComponent(components(path).last()),
        ),
        diverges(components(other), components(path)) && m.lookup(other) is Ok ==> m.removed(
            path,
            now,
        ).0.inode_at(other) == m.inode_at(other),
{
    let t = m.tree();
    let root = m.state.root;
    let comps = components(path);
    law_remove_path(t, root, comps, now);
    law_graft_is_copy_on_write(t, root, comps, None, now);
    let (t2, g) = graft(t, root, comps, None, now);
    let after = m.removed(path, now).0;
    assert(after.tree() =~= t2);
    if diverges(components(other), comps) && m.lookup(other) is Ok {
        law_old_paths_never_change(t, t2, root, components(other));
        if g is Ok {
            law_diverging_paths_unchanged(
                t,
                root,
                comps,
                None,
                now,
                components(other),
                m.lookup(other)->Ok_0,
            );
        }
        lemma_inode_kept(m, after, m.lookup(other)->Ok_0);
    }
}

/// After a rename between diverging paths the new path, and everything below
/// it, leads where the old one led, and the old one leads nowhere.
pub proof fn law_rename_moves(
    m: FsModel,
    from: Seq<char>,
    to: Seq<char>,
    now: i64,
    rest: Seq<Seq<char>>,
)
    requires
        m.sound(),
        diverges(components(from), components(to)),
        diverges(components(to), components(from)),
        m.ids_left(2 * (components(from).len() + components(to).len())),
    ensures
        m.renamed(from, to, now).1 is Ok <==> m.lookup(from) is Ok && open_to(
            m.inodes,
            m.state.root,
            components(to),
        ),
        m.renamed(from, to, now).1 is Ok ==> {
            let after = m.renamed(from, to, now).0;
            &&& after.lookup(to) == m.lookup(from)
            &&& after.lookup(from) == Err::<u64, Fault>(
                Fault::NoSuchComponent(components(from).last()),
            )
            &&& resolve(after.inodes, m.lookup(from)->Ok_0, rest) == resolve(
                m.inodes,
                m.lookup(from)->Ok_0,
                rest,
            )
            &&& after.state.txg == m.state.txg + 1
        },
{
    let t = m.tree();
    let root = m.state.root;
    let a = components(from);
    let b = components(to);
    if m.lookup(from) is Ok {
        let id = m.lookup(from)->Ok_0;
        law_old_paths_never_change(t, t, root, a);
        law_graft_is_copy_on_write(t, root, b, Some(id), now);
        law_set_succeeds_on_open_paths(t, root, b, id, now);
        let (t1, r1) = graft(t, root, b, Some(id), now);
        if r1 is Ok {
            let root1 = r1->Ok_0;
            law_set_path_leads_to_leaf(t, root, b, id, now, Seq::empty());
            assert(b + Seq::<Seq<char>>::empty() =~= b);
            law_diverging_paths_unchanged(t, root, b, Some(id), now, a, id);
            law_remove_path(t1, root1, a, now);
            law_graft_is_copy_on_write(t1, root1, a, None, now);
            let (t2, r2) = graft(t1, root1, a, None, now);
            assert(r2 is Ok);
            law_diverging_paths_unchanged(t1, root1, a, None, now, b, id);
            lemma_extended_transitive(t, t1, t2);
            law_old_paths_never_change(t, t2, id, rest);
            let after = m.renamed(from, to, now).0;
            assert(after.tree() =~= t2);
        }
    }
}

/// A snapshot keeps what it was taken of: after any number of later operations
/// a rollback to it makes every path lead where it led when the snapshot was
/// taken, to inodes that have not changed.
pub proof fn law_rollback_restores_the_snapshot(
    m: FsModel,
    later: FsModel,
    name: Seq<char>,
    path: Seq<char>,
)
    requires
        m.sound(),
        listed(m.inodes),
        m.tree().extended_by(later.tree()),
        later.snapshots.contains_key(name),
        later.snapshots[name] == m.state,
        later.state.txg < u64::MAX,
    ensures
        later.rolled_back(name).1 is Ok,
        later.rolled_back(name).0.lookup(path) == m.lookup(path),
        later.rolled_back(name).0.inode_at(path) == m.inode_at(path),
        later.rolled_back(name).0.listing(path) == m.listing(path),
        later.rolled_back(name).0.state.next_inode == later.state.next_inode,
        later.rolled_back(name).0.state.txg == later.state.txg + 1,
{
    let back = later.rolled_back(name).0;
    law_old_paths_never_change(m.tree(), later.tree(), m.state.root, components(path));
    if m.lookup(path) is Ok {
        lemma_inode_kept(m, later, m.lookup(path)->Ok_0);
        lemma_listing_kept(m, back, path);
    }
}

/// A directory that is led to as before is listed as before.
pub proof fn lemma_listing_kept(m: FsModel, later: FsModel, path: Seq<char>)
    requires
        m.sound(),
        listed(m.inodes),
        m.tree().extended_by(later.tree()),
        m.lookup(path) is Ok,
        later.lookup(path) == m.lookup(path),
        later.inode_at(path) == m.inode_at(path),
    ensures
        later.listing(path) == m.listing(path),
{
    if m.inode_at(path) is Ok && m.inode_at(path)->Ok_0 is Dir {
        let id = m.lookup(path)->Ok_0;
        let all = dir_entries(m.inodes[id]->entries);
        assert forall|i: int| 0 <= i < all.len() implies (#[trigger] all[i]).1
            < m.state.next_inode by {
            lemma_map_of_entry::<String, u64>(all, i);
            assert(m.inodes[id]->entries[all[i].0] < id);
        }
        lemma_kinds_kept(m, later, all, all.len() as int);
    }
}

/// Garbage collection keeps every block of every file that a path leads to from
/// the live root or from a snapshot: if the block was stored, it still is, with
/// the same bytes. Every block that is copied passes the check of
/// [`crate::fs::Filesystem::gc_copy`], so that the new log is intact.
pub proof fn law_gc_keeps_reachable_files(
    m: FsModel,
    log: Seq<u8>,
    i: int,
    comps: Seq<Seq<char>>,
    k: Seq<u8>,
)
    requires
        listed(m.inodes),
        m.pinned_ends(),
        m.blocks.passes(log, references(m.pinned()->Ok_0).dom()),
        ascending::<crate::blockstore::Hash, Extent>(m.blocks.entries()),
        map_of(m.blocks.entries()) == m.blocks.index,
        m.blocks.framed() <= u64::MAX,
        m.pinned() is Ok,
        0 <= i < m.roots().len(),
        resolve(m.inodes, m.roots()[i], comps) is Ok,
        inode_refers_to(m.inodes[resolve(m.inodes, m.roots()[i], comps)->Ok_0], k),
        m.blocks.index.contains_key(k),
    ensures
        ({
            let live = references(m.pinned()->Ok_0).dom();
            let after = m.blocks.compacted(live);
            let new_log = m.blocks.compacted_log(live, log);
            &&& after.intact(new_log)
            &&& after.index.contains_key(k)
            &&& bytes_at(new_log, after.index[k]) == bytes_at(log, m.blocks.index[k])
        }),
{
    let seen = m.pinned()->Ok_0;
    let live = references(seen).dom();
    let id = resolve(m.inodes, m.roots()[i], comps)->Ok_0;
    lemma_visited_all_contains(m.inodes, m.roots(), m.roots().len(), i);
    law_walk_visits_every_path(m.inodes, m.roots()[i], comps);
    let j = choose|j: int| 0 <= j < seen.len() && seen[j] == m.inodes[id];
    assert(inode_refers_to(seen[j], k));
    assert(refers_to(seen, k));
    law_compaction_keeps_live_blocks(m.blocks, live, log);
}

/// After a garbage collection of a filesystem without snapshots all stored
/// bytes are referenced: nothing is left to reclaim.
pub proof fn law_gc_leaves_nothing_to_reclaim(m: FsModel, log: Seq<u8>)
    requires
        m.blocks.passes(log, references(m.pinned()->Ok_0).dom()),
        ascending::<crate::blockstore::Hash, Extent>(m.blocks.entries()),
        map_of(m.blocks.entries()) == m.blocks.index,
        m.blocks.framed() <= u64::MAX,
        m.pinned() is Ok,
        m.roots() == seq![m.state.root],
    ensures
        ({
            let seen = visited(m.inodes, m.state.root)->Ok_0;
            let after = m.blocks.compacted(references(m.pinned()->Ok_0).dom());
            let live = sorted_addresses(references(seen));
            after.physical() == unique_bytes(after, live, live.len() as int)
        }),
{
    let seen = m.pinned()->Ok_0;
    let live = references(seen).dom();
    let after = m.blocks.compacted(live);
    law_compaction_keeps_live_blocks(m.blocks, live, log);
    assert(visited_all(m.inodes, m.roots(), 0) == Ok::<
        Seq<InodeModel>,
        Fault,
    >(Seq::empty()));
    assert(seen =~= visited(m.inodes, m.state.root)->Ok_0);
    let keys = sorted_addresses(references(seen));
    lemma_references_finite(seen);
    lemma_finite_map_has_entries::<crate::blockstore::Hash, ()>(references(seen));
    lemma_compacted_entries(m.blocks, live);
    let entries = after.entries();
    let n = keys.len() as int;
    let e = entries.len() as int;
    assert forall|i: int| 0 <= i < e implies among(keys, n, (#[trigger] entries[i]).0) by {
        lemma_map_of_entry::<crate::blockstore::Hash, Extent>(entries, i);
        assert(live.contains(entries[i].0));
        let j = lemma_map_of_key(keys, entries[i].0);
        assert(entries[i].0 == keys[j].0);
    }
    lemma_unique_covers(after, keys, entries, n, e);
    assert(entries.take(e) =~= entries);
}

/// Every reference of the files to a block, in order.
pub open spec fn all_references(seen: Seq<InodeModel>) -> Seq<Seq<u8>>
    decreases seen.len(),
{
    if seen.len() == 0 {
        Seq::empty()
    } else {
        all_references(seen.drop_last()) + match seen.last() {
            InodeModel::File { blocks, .. } => blocks,
            InodeModel::Dir { .. } => Seq::empty(),
        }
    }
}

proof fn lemma_block_bytes_append(b: BlocksModel, x: Seq<Seq<u8>>, y: Seq<Seq<u8>>, n: int)
    requires
        0 <= n <= x.len() + y.len(),
    ensures
        block_bytes(b, x + y, n) == if n <= x.len() {
            block_bytes(b, x, n)
        } else {
            block_bytes(b, x, x.len() as int) + block_bytes(b, y, n - x.len())
        },
    decreases n,
{
    if n > 0 {
        lemma_block_bytes_append(b, x, y, n - 1);
        assert((x + y)[n - 1] == if n <= x.len() {
            x[n - 1]
        } else {
            y[n - 1 - x.len()]
        });
        assert(block_bytes(b, y, 0) == 0);
    }
}

proof fn lemma_block_bytes_remove(b: BlocksModel, x: Seq<Seq<u8>>, i: int, n: int)
    requires
        0 <= i < x.len(),
        0 <= n < x.len(),
    ensures
        block_bytes(b, x.remove(i), n) == if n <= i {
            block_bytes(b, x, n)
        } else {
            (block_bytes(b, x, n + 1) - b.len_of(x[i])) as nat
        },
        i < n ==> block_bytes(b, x, n + 1) >= b.len_of(x[i]),
    decreases n,
{
    if n > 0 {
        lemma_block_bytes_remove(b, x, i, n - 1);
        assert(x.remove(i)[n - 1] == if n - 1 < i {
            x[n - 1]
        } else {
            x[n]
        });
        assert(block_bytes(b, x, n + 1) == block_bytes(b, x, n) + b.len_of(x[n]));
        assert(block_bytes(b, x, n) == block_bytes(b, x, n - 1) + b.len_of(x[n - 1]));
    }
}

proof fn lemma_all_references(b: BlocksModel, seen: Seq<InodeModel>)
    ensures
        referenced_bytes(b, seen) == block_bytes(
            b,
            all_references(seen),
            all_references(seen).len() as int,
        ),
        forall|k: Seq<u8>| #[trigger] refers_to(seen, k) ==> all_references(seen).contains(k),
    decreases seen.len(),
{
    if seen.len() > 0 {
        let before = seen.drop_last();
        lemma_all_references(b, before);
        assert(before.push(seen.last()) =~= seen);
        let x = all_references(before);
        let y = match seen.last() {
            InodeModel::File { blocks, .. } => blocks,
            InodeModel::Dir { .. } => Seq::empty(),
        };
        lemma_block_bytes_append(b, x, y, (x + y).len() as int);
        assert(block_bytes(b, y, 0) == 0);
        assert forall|k: Seq<u8>| #[trigger] refers_to(seen, k) implies (x + y).contains(k) by {
            lemma_refers_push(before, seen.last(), k);
            if refers_to(before, k) {
                let i = choose|i: int| 0 <= i < x.len() && x[i] == k;
                assert((x + y)[i] == k);
            } else {
                let i = choose|i: int| 0 <= i < y.len() && y[i] == k;
                assert((x + y)[x.len() + i] == k);
            }
        }
    }
}

/// What different addresses of a list hold is no more than what the whole list
/// does.
proof fn lemma_unique_is_less(
    b: BlocksModel,
    keys: Seq<(Seq<u8>, ())>,
    n: int,
    refs: Seq<Seq<u8>>,
)
    requires
        ascending::<crate::blockstore::Hash, ()>(keys),
        0 <= n <= keys.len(),
        forall|j: int| 0 <= j < n ==> refs.contains((#[trigger] keys[j]).0),
    ensures
        unique_bytes(b, keys, n) <= block_bytes(b, refs, refs.len() as int),
    decreases n,
{
    if n > 0 {
        let last = keys[n - 1].0;
        let i = choose|i: int| 0 <= i < refs.len() && refs[i] == last;
        let rest = refs.remove(i);
        assert forall|j: int| 0 <= j < n - 1 implies rest.contains((#[trigger] keys[j]).0) by {
            assert(crate::blockstore::Hash::before(keys[j].0, last));
            if keys[j].0 == last {
                crate::blockstore::Hash::irreflexive(last);
            }
            let p = choose|p: int| 0 <= p < refs.len() && refs[p] == keys[j].0;
            if p < i {
                assert(rest[p] == keys[j].0);
            } else {
                assert(rest[p - 1] == keys[j].0);
            }
        }
        lemma_unique_is_less(b, keys, n - 1, rest);
        lemma_block_bytes_remove(b, refs, i, rest.len() as int);
        assert(block_bytes(b, refs, refs.len() as int) == block_bytes(b, refs, refs.len() - 1)
            + b.len_of(refs[refs.len() - 1]));
    }
}

/// The sorted addresses up to `n` cover no more than the sorted entries up to
/// `e` do, where no entry behind `e` has one of these addresses.
proof fn lemma_unique_is_covered(
    b: BlocksModel,
    keys: Seq<(Seq<u8>, ())>,
    entries: Seq<(Seq<u8>, Extent)>,
    n: int,
    e: int,
)
    requires
        ascending::<crate::blockstore::Hash, ()>(keys),
        ascending::<crate::blockstore::Hash, Extent>(entries),
        map_of(entries) == b.index,
        0 <= n <= keys.len(),
        0 <= e <= entries.len(),
        forall|i: int, j: int|
            e <= i < entries.len() && 0 <= j < n ==> (#[trigger] entries[i]).0 != (
            #[trigger] keys[j]).0,
    ensures
        unique_bytes(b, keys, n) <= covered(entries.take(e)),
    decreases n,
{
    if n > 0 {
        let last = keys[n - 1].0;
        if b.index.contains_key(last) {
            let p = lemma_map_of_key(entries, last);
            lemma_map_of_entry::<crate::blockstore::Hash, Extent>(entries, p);
            assert(entries[p].0 == keys[n - 1].0);
            assert forall|i: int, j: int| p <= i < entries.len() && 0 <= j < n - 1 implies (
            #[trigger] entries[i]).0 != (#[trigger] keys[j]).0 by {
                assert(crate::blockstore::Hash::before(keys[j].0, last));
                if entries[i].0 == keys[j].0 {
                    if p < i {
                        assert(crate::blockstore::Hash::before(entries[p].0, entries[i].0));
                        crate::blockstore::Hash::transitive(last, keys[j].0, last);
                    }
                    crate::blockstore::Hash::irreflexive(last);
                }
            }
            lemma_unique_is_covered(b, keys, entries, n - 1, p);
            crate::blockstore::lemma_covered_take(entries, p);
            crate::blockstore::lemma_covered_part(entries.take(e), p + 1);
            assert(entries.take(e).take(p + 1) =~= entries.take(p + 1));
        } else {
            lemma_unique_is_covered(b, keys, entries, n - 1, e);
        }
    }
}

proof fn lemma_dir_counts(seen: Seq<InodeModel>)
    requires
        seen.len() > 0,
        seen[0] is Dir,
    ensures
        dir_count(seen) >= 1,
    decreases seen.len(),
{
    if seen.len() > 1 {
        assert(seen.drop_last()[0] == seen[0]);
        lemma_dir_counts(seen.drop_last());
    }
}

/// Where nothing dangles the sizes can be told, and they add up: the referenced
/// data is part of all stored data, and what is left of it can be reclaimed. As
/// far as the counts fit in 64 bits, counting duplicates gives no less than
/// counting each block once, both are zero where no file has blocks, and there
/// is at least the root directory.
pub proof fn law_info_adds_up(m: FsModel, info: FsInfo)
    requires
        m.sound(),
        m.whole(),
        listed(m.inodes),
        ascending::<crate::blockstore::Hash, Extent>(m.blocks.entries()),
        map_of(m.blocks.entries()) == m.blocks.index,
        m.blocks.framed() <= u64::MAX,
    ensures
        visited(m.inodes, m.state.root) is Ok,
        ({
            let seen = visited(m.inodes, m.state.root)->Ok_0;
            let live = sorted_addresses(references(seen));
            m.info_of(info, seen) ==> {
                &&& info.physical_referenced == unique_bytes(m.blocks, live, live.len() as int)
                &&& info.physical_referenced <= info.physical_total
                &&& info.physical_total == info.physical_referenced + info.reclaimable_bytes
                &&& referenced_bytes(m.blocks, seen) <= u64::MAX ==> info.referenced_bytes
                    >= info.physical_referenced
                &&& all_references(seen).len() == 0 ==> info.referenced_bytes == 0
                    && info.physical_referenced == 0
                &&& dir_count(seen) <= u64::MAX ==> info.dirs >= 1
            }
        }),
{
    law_walk_succeeds(m.tree(), m.state.root);
    let seen = visited(m.inodes, m.state.root)->Ok_0;
    let keys = sorted_addresses(references(seen));
    let entries = m.blocks.entries();
    let n = keys.len() as int;
    lemma_references_finite(seen);
    lemma_finite_map_has_entries::<crate::blockstore::Hash, ()>(references(seen));
    lemma_unique_is_covered(m.blocks, keys, entries, n, entries.len() as int);
    assert(entries.take(entries.len() as int) =~= entries);
    lemma_all_references(m.blocks, seen);
    assert forall|j: int| 0 <= j < n implies all_references(seen).contains(
        (#[trigger] keys[j]).0,
    ) by {
        lemma_map_of_entry::<crate::blockstore::Hash, ()>(keys, j);
        assert(references(seen).contains_key(keys[j].0));
        assert(refers_to(seen, keys[j].0));
    }
    lemma_unique_is_less(m.blocks, keys, n, all_references(seen));
    assert(seen[0] == m.inodes[m.state.root]);
    lemma_dir_counts(seen);
}

/// Files refer to finitely many blocks.
proof fn lemma_references_finite(seen: Seq<InodeModel>)
    ensures
        references(seen).dom().finite(),
    decreases seen.len(),
{
    if seen.len() == 0 {
        assert(references(seen).dom() =~= Set::empty());
    } else {
        let before = seen.drop_last();
        let last = seen.last();
        lemma_references_finite(before);
        assert(before.push(last) =~= seen);
        let more = if last is File {
            last->blocks.to_set()
        } else {
            Set::empty()
        };
        vstd::seq_lib::seq_to_set_is_finite(last->blocks);
        assert forall|k: Seq<u8>| references(seen).dom().contains(k) == references(
            before,
        ).dom().union(more).contains(k) by {
            lemma_refers_push(before, last, k);
        }
        assert(references(seen).dom() =~= references(before).dom().union(more));
    }
}

/// One of the first `n` addresses is `k`.
spec fn among(keys: Seq<(Seq<u8>, ())>, n: int, k: Seq<u8>) -> bool {
    exists|j: int| 0 <= j < n && k == (#[trigger] keys[j]).0
}

/// The sorted addresses up to `n` cover what the sorted entries up to `e` do,
/// where no entry behind `e` has one of these addresses, and every entry up to
/// `e` has.
proof fn lemma_unique_covers(
    b: BlocksModel,
    keys: Seq<(Seq<u8>, ())>,
    entries: Seq<(Seq<u8>, Extent)>,
    n: int,
    e: int,
)
    requires
        ascending::<crate::blockstore::Hash, ()>(keys),
        ascending::<crate::blockstore::Hash, Extent>(entries),
        map_of(entries) == b.index,
        0 <= n <= keys.len(),
        0 <= e <= entries.len(),
        forall|i: int| 0 <= i < e ==> among(keys, n, (#[trigger] entries[i]).0),
        forall|i: int, j: int|
            e <= i < entries.len() && 0 <= j < n ==> (#[trigger] entries[i]).0 != (
            #[trigger] keys[j]).0,
    ensures
        unique_bytes(b, keys, n) == covered(entries.take(e)),
    decreases n,
{
    if n == 0 {
        if e > 0 {
            assert(among(keys, n, entries[0].0));
            assert(false);
        }
        assert(entries.take(e) =~= Seq::empty());
    } else {
        let last = keys[n - 1].0;
        if e > 0 && entries[e - 1].0 == last {
            lemma_map_of_entry::<crate::blockstore::Hash, Extent>(entries, e - 1);
            crate::blockstore::lemma_covered_take(entries, e - 1);
            assert forall|i: int| 0 <= i < e - 1 implies among(keys, n - 1, (#[trigger] entries[i]).0) by {
                assert(among(keys, n, entries[i].0));
                let j = choose|j: int|
                    0 <= j < n && entries[i].0 == (#[trigger] keys[j]).0;
                if j == n - 1 {
                    assert(crate::blockstore::Hash::before(entries[i].0, entries[e - 1].0));
                    crate::blockstore::Hash::irreflexive(last);
                }
            }
            assert forall|i: int, j: int| e - 1 <= i < entries.len() && 0 <= j < n - 1 implies (
            #[trigger] entries[i]).0 != (#[trigger] keys[j]).0 by {
                if i == e - 1 && entries[i].0 == keys[j].0 {
                    assert(crate::blockstore::Hash::before(keys[j].0, keys[n - 1].0));
                    crate::blockstore::Hash::irreflexive(last);
                }
            }
            lemma_unique_covers(b, keys, entries, n - 1, e - 1);
        } else {
            // The address belongs to no entry: an entry before `e` that had it
            // would stand before one with a smaller address.
            if b.index.contains_key(last) {
                let i = lemma_map_of_key(entries, last);
                if i < e {
                    assert(among(keys, n, entries[e - 1].0));
                    let j = choose|j: int|
                        0 <= j < n && entries[e - 1].0 == (#[trigger] keys[j]).0;
                    assert(crate::blockstore::Hash::before(entries[i].0, entries[e - 1].0));
                    if j < n - 1 {
                        assert(crate::blockstore::Hash::before(keys[j].0, keys[n - 1].0));
                        crate::blockstore::Hash::transitive(last, keys[j].0, last);
                    }
                    crate::blockstore::Hash::irreflexive(last);
                } else {
                    assert(entries[i].0 != keys[n - 1].0);
                }
                assert(false);
            }
            assert forall|i: int| 0 <= i < e implies among(keys, n - 1, (#[trigger] entries[i]).0) by {
                assert(among(keys, n, entries[i].0));
                let j = choose|j: int|
                    0 <= j < n && entries[i].0 == (#[trigger] keys[j]).0;
                if j == n - 1 {
                    lemma_map_of_entry::<crate::blockstore::Hash, Extent>(entries, i);
                }
            }
            lemma_unique_covers(b, keys, entries, n - 1, e);
        }
    }
}

} // verus!
