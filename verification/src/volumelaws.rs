//! What holds of paths, contents and sizes on the volume.

use vstd::prelude::*;

use crate::blockstore::{covered, digest, dropped_keys, record, BlocksModel, Extent};
use crate::cache::{
    law_new_data_is_admitted, lemma_held_is_contained, lemma_looked_up_holds, CacheModel,
};
use crate::cachelaws::{
    law_invalidate_all, law_lookup_finds_what_is_held, law_read_loses_nothing,
};
use crate::codec::{from_le32, law_le32_round_trip};
use crate::fs::{
    block_bytes, blocks_of, chunks, components, dir_count, fault_text, file_count, file_inode,
    inline_of, joined, logical_bytes, referenced_bytes, references, refers_to, same_outcome,
    stat_of, unique_bytes, FsError, FsInfo, FsModel, Saved,
};
use crate::fslaws::{lemma_placed, lemma_placed_leaves_others};
use crate::inode::{kind_text, Stat, SuperBlock};
use crate::order::{code_points, lex_before, OrderedKey};
use crate::sorted::{
    ascending, lemma_entries_unique, lemma_finite_map_has_entries, lemma_map_of_entry,
    lemma_map_of_insert, lemma_map_of_key, lemma_place_for, map_of,
};
use crate::text::{decimal_text, hex_text};
use crate::textlaws::{law_run_alone, law_runs_are_parted};
use crate::tree::{
    dir_children, dir_entries, diverges, empty_dir, ends, graft, law_diverging_paths_unchanged,
    law_graft_is_copy_on_write, law_old_paths_never_change, law_remove_path, lemma_put_extends,
    lemma_visited, listed, open_to, resolve, visited, visited_all, Fault, InodeModel, Tree,
};

verus! {

/// A slash of either kind parts the components before it from those behind it,
/// and an empty path has none.
pub proof fn law_components_are_parted(a: Seq<char>, c: char, b: Seq<char>)
    requires
        c == '/' || c == '\\',
    ensures
        components(a.push(c) + b) == components(a) + components(b),
        components(Seq::<char>::empty()) == Seq::<Seq<char>>::empty(),
{
    let seps = seq!['/', '\\'];
    assert(seps[0] == '/' && seps[1] == '\\');
    law_runs_are_parted(a, c, b, seps);
}

/// A name without slashes is one component.
pub proof fn law_component_alone(w: Seq<char>)
    requires
        w.len() > 0,
        forall|i: int| 0 <= i < w.len() ==> #[trigger] w[i] != '/' && w[i] != '\\',
    ensures
        components(w) == seq![w],
{
    let seps = seq!['/', '\\'];
    assert forall|i: int| 0 <= i < w.len() implies !seps.contains(#[trigger] w[i]) by {
        if seps.contains(w[i]) {
            let k = choose|k: int| 0 <= k < seps.len() && seps[k] == w[i];
        }
    }
    law_run_alone(w, seps);
}

/// Content is cut into chunks of 64 KiB, of which only the last may be shorter,
/// and none is empty; each holds its part of the content.
pub proof fn law_chunks(data: Seq<u8>, i: int, j: int)
    requires
        0 <= i < chunks(data).len(),
    ensures
        i < chunks(data).len() - 1 ==> chunks(data)[i].len() == 65_536,
        0 < chunks(data)[i].len() <= 65_536,
        0 <= j < chunks(data)[i].len() ==> chunks(data)[i][j] == data[i * 65_536 + j],
        65_536 * (chunks(data).len() - 1) < data.len() <= 65_536 * chunks(data).len(),
{
}

/// A file of up to 4 KiB stands in its inode and has no blocks; a larger one has
/// its chunks as blocks, and nothing in the inode.
pub proof fn law_small_and_large(data: Seq<u8>)
    ensures
        data.len() <= 4096 ==> blocks_of(data).len() == 0 && inline_of(data) == data,
        data.len() > 4096 ==> blocks_of(data) == chunks(data) && inline_of(data).len() == 0,
        data.len() > 4096 ==> blocks_of(data).len() > 0,
{
}

/// The inode of a file says how long its content is, when it was written, and
/// the digest of each of its blocks.
pub proof fn law_file_inode(data: Seq<u8>, now: i64, i: int)
    requires
        data.len() <= u64::MAX,
    ensures
        file_inode(data, now) is File,
        file_inode(data, now)->size == data.len(),
        file_inode(data, now)->File_mtime == now,
        file_inode(data, now)->mode == 0o644,
        file_inode(data, now)->blocks.len() == blocks_of(data).len(),
        0 <= i < blocks_of(data).len() ==> file_inode(data, now)->blocks[i] == digest(
            blocks_of(data)[i],
        ),
        data.len() <= 4096 ==> file_inode(data, now)->data == data,
{
}

proof fn lemma_joined_push(a: Seq<Seq<u8>>, x: Seq<u8>)
    ensures
        joined(a.push(x)) == joined(a) + x,
{
    assert(a.push(x).drop_last() =~= a);
    assert(joined(a.push(x)) =~= joined(a) + x);
}

/// Parts are joined one behind the other.
pub proof fn law_joined(a: Seq<Seq<u8>>, x: Seq<u8>)
    ensures
        joined(a.push(x)) == joined(a) + x,
        joined(Seq::<Seq<u8>>::empty()).len() == 0,
{
    lemma_joined_push(a, x);
}

/// Files and directories are counted, and only files have a size.
pub proof fn law_counts(seen: Seq<InodeModel>, x: InodeModel)
    ensures
        x is File ==> file_count(seen.push(x)) == file_count(seen) + 1 && dir_count(seen.push(x))
            == dir_count(seen) && logical_bytes(seen.push(x)) == logical_bytes(seen) + x->size,
        x is Dir ==> dir_count(seen.push(x)) == dir_count(seen) + 1 && file_count(seen.push(x))
            == file_count(seen) && logical_bytes(seen.push(x)) == logical_bytes(seen),
        file_count(Seq::empty()) == 0,
        dir_count(Seq::empty()) == 0,
        logical_bytes(Seq::empty()) == 0,
{
    assert(seen.push(x).drop_last() =~= seen);
}

proof fn lemma_block_bytes_prefix(b: BlocksModel, blocks: Seq<Seq<u8>>, k: Seq<u8>, n: int)
    requires
        0 <= n <= blocks.len(),
    ensures
        block_bytes(b, blocks.push(k), n) == block_bytes(b, blocks, n),
    decreases n,
{
    if n > 0 {
        lemma_block_bytes_prefix(b, blocks, k, n - 1);
        assert(blocks.push(k)[n - 1] == blocks[n - 1]);
    }
}

/// The blocks of files are counted with their lengths, once for each time that
/// a file refers to them; a block that is not stored counts nothing.
pub proof fn law_referenced_bytes(
    b: BlocksModel,
    seen: Seq<InodeModel>,
    x: InodeModel,
    blocks: Seq<Seq<u8>>,
    k: Seq<u8>,
)
    ensures
        x is File ==> referenced_bytes(b, seen.push(x)) == referenced_bytes(b, seen) + block_bytes(
            b,
            x->blocks,
            x->blocks.len() as int,
        ),
        x is Dir ==> referenced_bytes(b, seen.push(x)) == referenced_bytes(b, seen),
        b.index.contains_key(k) ==> block_bytes(b, blocks.push(k), blocks.len() as int + 1)
            == block_bytes(b, blocks, blocks.len() as int) + b.index[k].len,
        !b.index.contains_key(k) ==> block_bytes(b, blocks.push(k), blocks.len() as int + 1)
            == block_bytes(b, blocks, blocks.len() as int),
        block_bytes(b, Seq::empty(), 0) == 0,
        referenced_bytes(b, Seq::empty()) == 0,
{
    assert(seen.push(x).drop_last() =~= seen);
    lemma_block_bytes_prefix(b, blocks, k, blocks.len() as int);
    assert(blocks.push(k)[blocks.len() as int] == k);
}

/// A block is referred to exactly if one of the files has it.
pub proof fn law_references(seen: Seq<InodeModel>, i: int, k: Seq<u8>)
    ensures
        0 <= i < seen.len() && seen[i] is File && seen[i]->blocks.contains(k)
            ==> references(seen).contains_key(k),
        references(seen).contains_key(k) ==> exists|j: int|
            0 <= j < seen.len() && (#[trigger] seen[j]) is File && seen[j]->blocks.contains(k),
{
    if 0 <= i < seen.len() && seen[i] is File && seen[i]->blocks.contains(k) {
        assert(crate::fs::inode_refers_to(seen[i], k));
    }
    if refers_to(seen, k) {
        let j = choose|j: int|
            0 <= j < seen.len() && #[trigger] crate::fs::inode_refers_to(seen[j], k);
        assert(seen[j] is File);
    }
}

/// The sizes that are told are those that were counted, as long as they fit in
/// 64 bits.
pub proof fn law_info_tells_the_counts(m: FsModel, info: FsInfo, seen: Seq<InodeModel>)
    requires
        m.info_of(info, seen),
    ensures
        info.txg == m.state.txg,
        file_count(seen) <= u64::MAX ==> info.files == file_count(seen),
        dir_count(seen) <= u64::MAX ==> info.dirs == dir_count(seen),
        logical_bytes(seen) <= u64::MAX ==> info.logical_bytes == logical_bytes(seen),
        referenced_bytes(m.blocks, seen) <= u64::MAX ==> info.referenced_bytes == referenced_bytes(
            m.blocks,
            seen,
        ),
        info.unique_blocks == m.blocks.entries().len(),
        info.physical_total == m.blocks.physical(),
        info.physical_total >= info.physical_referenced ==> info.reclaimable_bytes
            + info.physical_referenced == info.physical_total,
{
}

/// The snapshots are listed by name in ascending order, each with the
/// transaction at which it was taken, and none is left out.
pub proof fn law_snapshot_list(m: FsModel, name: Seq<char>, i: int, j: int)
    requires
        m.snapshots.dom().finite(),
    ensures
        m.snapshots.contains_key(name) ==> m.snapshot_list().contains(
            (name, m.snapshots[name].txg),
        ),
        0 <= i < m.snapshot_list().len() ==> m.snapshots.contains_key(m.snapshot_list()[i].0)
            && m.snapshots[m.snapshot_list()[i].0].txg == m.snapshot_list()[i].1,
        0 <= i < j < m.snapshot_list().len() ==> lex_before(
            code_points(m.snapshot_list()[i].0),
            code_points(m.snapshot_list()[j].0),
        ),
{
    lemma_finite_map_has_entries::<String, SuperBlock>(m.snapshots);
    let all = m.snapshot_entries();
    assert(ascending::<String, SuperBlock>(all) && map_of(all) == m.snapshots);
    if m.snapshots.contains_key(name) {
        let k = lemma_map_of_key(all, name);
        lemma_map_of_entry::<String, SuperBlock>(all, k);
        assert(m.snapshot_list()[k] == (name, m.snapshots[name].txg));
    }
    if 0 <= i < m.snapshot_list().len() {
        lemma_map_of_entry::<String, SuperBlock>(all, i);
    }
    if 0 <= i < j < m.snapshot_list().len() {
        assert(String::before(all[i].0, all[j].0));
    }
}

proof fn lemma_lex(a: Seq<int>, x: int, b: Seq<int>, y: int, c: Seq<int>)
    requires
        x != y,
    ensures
        lex_before(a.push(x) + b, a.push(y) + c) <==> x < y,
        lex_before(a, a.push(x) + b),
        !lex_before(a.push(x) + b, a),
    decreases a.len(),
{
    let s = a.push(x) + b;
    let t = a.push(y) + c;
    if a.len() == 0 {
        assert(s[0] == x && t[0] == y);
    } else {
        let r = a.drop_first();
        lemma_lex(r, x, b, y, c);
        assert(s[0] == a[0] && t[0] == a[0]);
        assert(s.drop_first() =~= r.push(x) + b);
        assert(t.drop_first() =~= r.push(y) + c);
    }
}

/// Names are in the order of their first different characters, and a name comes
/// before every longer one that begins with it.
pub proof fn law_name_order(a: Seq<char>, x: char, b: Seq<char>, y: char, c: Seq<char>)
    requires
        x != y,
    ensures
        String::before(a.push(x) + b, a.push(y) + c) <==> (x as u32) < (y as u32),
        String::before(a, a.push(x) + b),
        !String::before(a.push(x) + b, a),
{
    let p = code_points(a);
    lemma_lex(p, x as int, code_points(b), y as int, code_points(c));
    assert(code_points(a.push(x) + b) =~= p.push(x as int) + code_points(b));
    assert(code_points(a.push(y) + c) =~= p.push(y as int) + code_points(c));
}

/// The record of a block is its length in four bytes, the lowest first, and then
/// its bytes.
pub proof fn law_record(bytes: Seq<u8>)
    requires
        bytes.len() <= u32::MAX,
    ensures
        record(bytes).len() == bytes.len() + 4,
        from_le32(record(bytes).take(4)) == bytes.len(),
        record(bytes).skip(4) == bytes,
{
    law_le32_round_trip(bytes.len() as u32);
    let l = crate::codec::le32(bytes.len() as u32);
    assert(record(bytes).take(4) =~= l);
    assert(record(bytes).skip(4) =~= bytes);
}

/// A new block is stored behind the end of the log, and a stored one where it
/// was.
pub proof fn law_block_is_appended(m: BlocksModel, bytes: Seq<u8>, k: Seq<u8>)
    requires
        m.log_len + 4 + bytes.len() <= u64::MAX,
        bytes.len() <= u32::MAX,
    ensures
        m.stored(bytes).index.contains_key(digest(bytes)),
        !m.index.contains_key(digest(bytes)) ==> {
            let e = m.stored(bytes).index[digest(bytes)];
            &&& e.offset == m.log_len + 4
            &&& e.len == bytes.len()
            &&& m.stored(bytes).log_len == m.log_len + m.appended(bytes).len()
            &&& m.appended(bytes) == record(bytes)
        },
        m.index.contains_key(k) ==> m.stored(bytes).index.contains_key(k) && m.stored(
            bytes,
        ).index[k] == m.index[k],
        m.index.contains_key(digest(bytes)) ==> m.appended(bytes).len() == 0,
{
}

/// A file is a `file` and a directory is a `dir`; a new directory has no entries
/// and is of now.
pub proof fn law_kinds_and_new_directories(m: InodeModel, now: i64, name: Seq<char>)
    ensures
        m is File ==> kind_text(m) == "file"@,
        m is Dir ==> kind_text(m) == "dir"@,
        empty_dir(now) is Dir,
        !empty_dir(now)->entries.contains_key(name),
        empty_dir(now)->Dir_mtime == now,
{
}

/// The root can be neither written nor removed nor renamed, and nothing changes
/// where that is tried.
pub proof fn law_root_is_kept(m: FsModel, path: Seq<char>, other: Seq<char>, data: Seq<u8>, now: i64)
    requires
        components(path).len() == 0,
    ensures
        m.written(path, data, now) == (m, Err::<(), Fault>(Fault::WriteRoot)),
        m.removed(path, now) == (m, Err::<(), Fault>(Fault::RemoveRoot)),
        m.renamed(path, other, now) == (m, Err::<(), Fault>(Fault::RenameRoot)),
        m.renamed(other, path, now) == (m, Err::<(), Fault>(Fault::RenameRoot)),
        m.made_dir(path, now).0 == m,
{
}

proof fn lemma_open_to(t: Tree, dir: u64, comps: Seq<Seq<char>>)
    requires
        t.sound(),
        t.whole(),
        t.inodes.contains_key(dir),
        comps.len() > 0,
    ensures
        open_to(t.inodes, dir, comps) <==> forall|n: int|
            0 <= n < comps.len() && resolve(t.inodes, dir, #[trigger] comps.take(n)) is Ok
                ==> t.inodes[resolve(t.inodes, dir, comps.take(n))->Ok_0] is Dir,
    decreases comps.len(),
{
    assert(comps.take(0) =~= Seq::empty());
    assert(resolve(t.inodes, dir, comps.take(0)) == Ok::<u64, Fault>(dir));
    let below = comps.drop_first();
    if t.inodes[dir] is Dir {
        let entries = t.inodes[dir]->entries;
        assert forall|n: int| 0 < n < comps.len() implies #[trigger] comps.take(n).drop_first()
            == below.take(n - 1) && comps.take(n)[0] == comps[0] by {
            assert(comps.take(n).drop_first() =~= below.take(n - 1));
        }
        if comps.len() > 1 && entries.contains_key(comps[0]) {
            let child = entries[comps[0]];
            assert(t.inodes.contains_key(t.inodes[dir]->entries[comps[0]]));
            lemma_open_to(t, child, below);
            if open_to(t.inodes, child, below) {
                assert forall|n: int|
                    0 <= n < comps.len() && resolve(t.inodes, dir, #[trigger] comps.take(n)) is Ok implies
                    t.inodes[resolve(t.inodes, dir, comps.take(n))->Ok_0] is Dir by {
                    if n > 0 {
                        assert(comps.take(n).drop_first() == below.take(n - 1));
                        assert(resolve(t.inodes, dir, comps.take(n)) == resolve(
                            t.inodes,
                            child,
                            below.take(n - 1),
                        ));
                    }
                }
            } else {
                let n = choose|n: int|
                    0 <= n < below.len() && resolve(t.inodes, child, #[trigger] below.take(n)) is Ok
                        && !(t.inodes[resolve(t.inodes, child, below.take(n))->Ok_0] is Dir);
                assert(comps.take(n + 1).drop_first() == below.take(n));
                assert(resolve(t.inodes, dir, comps.take(n + 1)) == resolve(
                    t.inodes,
                    child,
                    below.take(n),
                ));
            }
        } else {
            assert forall|n: int|
                0 <= n < comps.len() && resolve(t.inodes, dir, #[trigger] comps.take(n)) is Ok implies
                t.inodes[resolve(t.inodes, dir, comps.take(n))->Ok_0] is Dir by {
                if n > 0 {
                    assert(comps.take(n)[0] == comps[0]);
                }
            }
        }
    } else {
        assert(!(t.inodes[resolve(t.inodes, dir, comps.take(0))->Ok_0] is Dir));
    }
}

/// A file can be written, and a directory made, exactly where everything on the
/// way that is there is a directory.
pub proof fn law_paths_that_can_be_set(m: FsModel, path: Seq<char>, data: Seq<u8>, now: i64)
    requires
        m.sound(),
        m.whole(),
        components(path).len() > 0,
        m.ids_left(2 * components(path).len() + 1),
    ensures
        ({
            let comps = components(path);
            let fine = forall|n: int|
                0 <= n < comps.len() && resolve(
                    m.inodes,
                    m.state.root,
                    #[trigger] comps.take(n),
                ) is Ok ==> m.inodes[resolve(m.inodes, m.state.root, comps.take(n))->Ok_0] is Dir;
            &&& m.written(path, data, now).1 is Ok <==> fine
            &&& m.made_dir(path, now).1 is Ok <==> fine
        }),
{
    let base = FsModel {
        blocks: m.blocks.stored_all(blocks_of(data), blocks_of(data).len() as int),
        ..m
    };
    assert(base.tree() == m.tree());
    lemma_placed(base, path, file_inode(data, now), now);
    lemma_placed(m, path, empty_dir(now), now);
    lemma_open_to(m.tree(), m.state.root, components(path));
}

/// What is not there cannot be removed or renamed, and the live tree stays.
pub proof fn law_missing_paths_are_refused(m: FsModel, path: Seq<char>, other: Seq<char>, now: i64)
    requires
        m.sound(),
        components(path).len() > 0,
        m.ids_left(2 * components(path).len()),
        m.lookup(path) is Err,
    ensures
        m.removed(path, now).1 is Err,
        m.removed(path, now).0.state.root == m.state.root,
        m.removed(path, now).0.state.txg == m.state.txg,
        m.renamed(path, other, now).1 is Err,
        m.renamed(path, other, now).0 == m,
{
    law_remove_path(m.tree(), m.state.root, components(path), now);
}

proof fn lemma_changed_now(
    t: Tree,
    dir: u64,
    comps: Seq<Seq<char>>,
    leaf: Option<u64>,
    now: i64,
    n: int,
)
    requires
        t.sound(),
        leaf is Some ==> leaf.unwrap() < t.next,
        t.next + 2 * comps.len() <= u64::MAX,
        0 <= n < comps.len(),
        graft(t, dir, comps, leaf, now).1 is Ok,
    ensures
        ({
            let (t2, r) = graft(t, dir, comps, leaf, now);
            let at = resolve(t2.inodes, r->Ok_0, comps.take(n));
            &&& at is Ok
            &&& t2.inodes.contains_key(at->Ok_0)
            &&& t2.inodes[at->Ok_0] is Dir
            &&& t2.inodes[at->Ok_0]->Dir_mtime == now
        }),
    decreases comps.len(),
{
    let (t2, r) = graft(t, dir, comps, leaf, now);
    let root = r->Ok_0;
    law_graft_is_copy_on_write(t, dir, comps, leaf, now);
    if n == 0 {
        assert(comps.take(0) =~= Seq::empty());
        if comps.len() > 1 {
            let entries = t.inodes[dir]->entries;
            let (t1, child) = if entries.contains_key(comps[0]) {
                (t, entries[comps[0]])
            } else {
                (t.put(empty_dir(now)), t.next as u64)
            };
            assert forall|k: Seq<char>| #[trigger] entries.contains_key(k) implies entries[k]
                < t.next by {
                assert(t.inodes[dir]->entries[k] < dir);
            }
            lemma_put_extends(t, empty_dir(now));
            law_graft_is_copy_on_write(t1, child, comps.drop_first(), leaf, now);
        }
    } else {
        let entries = t.inodes[dir]->entries;
        let below = comps.drop_first();
        assert forall|k: Seq<char>| #[trigger] entries.contains_key(k) implies entries[k]
            < t.next by {
            assert(t.inodes[dir]->entries[k] < dir);
        }
        let (t1, child) = if entries.contains_key(comps[0]) {
            (t, entries[comps[0]])
        } else {
            (t.put(empty_dir(now)), t.next as u64)
        };
        lemma_put_extends(t, empty_dir(now));
        law_graft_is_copy_on_write(t1, child, below, leaf, now);
        lemma_changed_now(t1, child, below, leaf, now, n - 1);
        let (t3, b) = graft(t1, child, below, leaf, now);
        let changed = InodeModel::Dir { entries: entries.insert(comps[0], b->Ok_0), mtime: now };
        assert forall|k: Seq<char>| #[trigger] changed->entries.contains_key(
            k,
        ) implies changed->entries[k] < t3.next by {
            if k != comps[0] {
                assert(entries.contains_key(k));
            }
        }
        lemma_put_extends(t3, changed);
        law_old_paths_never_change(t3, t2, b->Ok_0, below.take(n - 1));
        assert(comps.take(n).drop_first() =~= below.take(n - 1));
        assert(comps.take(n)[0] == comps[0]);
        assert(t2.inodes[root] == changed);
        let id = resolve(t3.inodes, b->Ok_0, below.take(n - 1))->Ok_0;
        assert(t3.inodes.contains_key(id));
    }
}

/// Every directory on the way to a file that was written has been changed now.
pub proof fn law_changed_directories_are_of_now(
    m: FsModel,
    path: Seq<char>,
    data: Seq<u8>,
    now: i64,
    n: int,
)
    requires
        m.sound(),
        m.ids_left(2 * components(path).len() + 1),
        0 <= n < components(path).len(),
        m.written(path, data, now).1 is Ok,
    ensures
        ({
            let after = m.written(path, data, now).0;
            let at = resolve(after.inodes, after.state.root, components(path).take(n));
            at is Ok && after.inodes[at->Ok_0] is Dir && after.inodes[at->Ok_0]->Dir_mtime == now
        }),
{
    let base = FsModel {
        blocks: m.blocks.stored_all(blocks_of(data), blocks_of(data).len() as int),
        ..m
    };
    assert(base.tree() == m.tree());
    let inode = file_inode(data, now);
    let t1 = m.tree().put(inode);
    lemma_put_extends(m.tree(), inode);
    assert(base.with_tree(t1).tree() =~= t1);
    lemma_changed_now(
        t1,
        m.state.root,
        components(path),
        Some(m.state.next_inode),
        now,
        n,
    );
}

/// Paths diverge where they have different components at the same place; a path
/// does not diverge from one that leads through it.
pub proof fn law_diverging(a: Seq<Seq<char>>, b: Seq<Seq<char>>, n: int)
    ensures
        0 <= n < a.len() && n < b.len() && a[n] != b[n] ==> diverges(a, b),
        a.is_prefix_of(b) ==> !diverges(a, b),
        b.is_prefix_of(a) ==> !diverges(a, b),
    decreases a.len(),
{
    if a.len() > 0 && b.len() > 0 {
        law_diverging(a.drop_first(), b.drop_first(), n - 1);
        if a.is_prefix_of(b) {
            assert(a.drop_first().is_prefix_of(b.drop_first()));
        }
        if b.is_prefix_of(a) {
            assert(b.drop_first().is_prefix_of(a.drop_first()));
        }
        if 0 < n < a.len() && n < b.len() {
            assert(a.drop_first()[n - 1] == a[n] && b.drop_first()[n - 1] == b[n]);
        }
    }
}

/// A caller is told of success exactly where there was success, and of the
/// failure that there was.
pub proof fn law_outcome(r: Result<(), FsError>, g: Result<(), Fault>)
    requires
        same_outcome(r, g),
    ensures
        r is Ok <==> g is Ok,
        r matches Err(e) ==> g == Err::<(), Fault>(e@),
{
}

/// The metadata of a file are its size, its blocks and when it was changed, and
/// those of a directory how many entries it has and when it was changed.
pub proof fn law_stat(st: Stat, m: InodeModel)
    requires
        stat_of(st, m),
    ensures
        st.kind@ == kind_text(m),
        m matches InodeModel::File { size, blocks, mtime, .. } ==> st.size == size && st.blocks
            == blocks.len() && st.mtime == mtime && st.entries == 0,
        m matches InodeModel::Dir { entries, mtime } ==> st.entries == dir_entries(entries).len()
            && st.mtime == mtime && st.size == 0,
{
}

/// A change that succeeds publishes one transaction, and makes no other change
/// to the snapshots.
pub proof fn law_changes_publish_once(
    m: FsModel,
    path: Seq<char>,
    other: Seq<char>,
    data: Seq<u8>,
    now: i64,
)
    requires
        m.state.txg < u64::MAX,
        components(path).len() > 0,
    ensures
        m.written(path, data, now).1 is Ok ==> m.written(path, data, now).0.state.txg
            == m.state.txg + 1,
        m.made_dir(path, now).1 is Ok ==> m.made_dir(path, now).0.state.txg == m.state.txg + 1,
        m.removed(path, now).1 is Ok ==> m.removed(path, now).0.state.txg == m.state.txg + 1,
        m.renamed(path, other, now).1 is Ok ==> m.renamed(path, other, now).0.state.txg
            == m.state.txg + 1,
        m.rolled_back(path).1 is Ok ==> m.rolled_back(path).0.state.txg == m.state.txg + 1,
        m.written(path, data, now).0.snapshots == m.snapshots,
        m.made_dir(path, now).0.snapshots == m.snapshots,
        m.removed(path, now).0.snapshots == m.snapshots,
        m.renamed(path, other, now).0.snapshots == m.snapshots,
        m.rolled_back(path).0.snapshots == m.snapshots,
        m.made_dir(path, now).0.blocks == m.blocks,
        m.removed(path, now).0.blocks == m.blocks,
        m.renamed(path, other, now).0.blocks == m.blocks,
        m.rolled_back(path).0.blocks == m.blocks,
{
}

/// What is said of a failure names what it is about.
pub proof fn law_fault_texts(s: Seq<char>, id: u64, h: Seq<u8>)
    ensures
        s.is_prefix_of(fault_text(Fault::IsDirectory(s))),
        s.is_prefix_of(fault_text(Fault::IsFile(s))),
        s.is_prefix_of(fault_text(Fault::NotADirectory(s))),
        s.is_suffix_of(fault_text(Fault::NoSuchComponent(s))),
        s.is_suffix_of(fault_text(Fault::NoSuchEntry(s))),
        s.is_suffix_of(fault_text(Fault::NoSuchSnapshot(s))),
        decimal_text(id as nat).is_suffix_of(fault_text(Fault::DanglingInode(id))),
        hex_text(h).is_suffix_of(fault_text(Fault::BlockNotFound(h))),
{
}

/// What is said of a failure tells what kind it is: of one path, different
/// failures are told differently.
pub proof fn law_failures_are_told_apart(s: Seq<char>)
    ensures
        " is a directory"@.is_suffix_of(fault_text(Fault::IsDirectory(s))),
        " is a file"@.is_suffix_of(fault_text(Fault::IsFile(s))),
        " is not a directory"@.is_suffix_of(fault_text(Fault::NotADirectory(s))),
        fault_text(Fault::IsDirectory(s)) != fault_text(Fault::IsFile(s)),
        fault_text(Fault::IsDirectory(s)) != fault_text(Fault::NotADirectory(s)),
        fault_text(Fault::IsFile(s)) != fault_text(Fault::NotADirectory(s)),
        "no such "@.is_prefix_of(fault_text(Fault::NoSuchComponent(s))),
        "no such "@.is_prefix_of(fault_text(Fault::NoSuchEntry(s))),
        "no such "@.is_prefix_of(fault_text(Fault::NoSuchSnapshot(s))),
        fault_text(Fault::NoSuchComponent(s)) != fault_text(Fault::NoSuchEntry(s)),
        fault_text(Fault::NoSuchComponent(s)) != fault_text(Fault::NoSuchSnapshot(s)),
        fault_text(Fault::NoSuchEntry(s)) != fault_text(Fault::NoSuchSnapshot(s)),
{
    reveal_strlit(" is a directory");
    reveal_strlit(" is a file");
    reveal_strlit(" is not a directory");
    reveal_strlit("no such ");
    reveal_strlit("no such path component: ");
    reveal_strlit("no such entry: ");
    reveal_strlit("no such snapshot: ");
    assert(fault_text(Fault::IsDirectory(s)).len() == s.len() + 15);
    assert(fault_text(Fault::IsFile(s)).len() == s.len() + 10);
    assert(fault_text(Fault::NotADirectory(s)).len() == s.len() + 19);
    assert(fault_text(Fault::NoSuchComponent(s)).len() == s.len() + 24);
    assert(fault_text(Fault::NoSuchEntry(s)).len() == s.len() + 15);
    assert(fault_text(Fault::NoSuchSnapshot(s)).len() == s.len() + 18);
}

/// A directory that something was taken out of stays, and so do all above it,
/// and they have been changed now.
pub proof fn law_parents_stay(m: FsModel, path: Seq<char>, now: i64, n: int)
    requires
        m.sound(),
        m.ids_left(2 * components(path).len()),
        0 <= n < components(path).len(),
        m.removed(path, now).1 is Ok,
    ensures
        ({
            let after = m.removed(path, now).0;
            let at = resolve(after.inodes, after.state.root, components(path).take(n));
            at is Ok && after.inodes[at->Ok_0] is Dir && after.inodes[at->Ok_0]->Dir_mtime == now
        }),
{
    lemma_changed_now(m.tree(), m.state.root, components(path), None, now, n);
}

/// Making a directory, or renaming something, leaves every path that leads
/// neither to it nor through it.
pub proof fn law_other_paths_stay(
    m: FsModel,
    path: Seq<char>,
    to: Seq<char>,
    now: i64,
    other: Seq<char>,
    x: u64,
)
    requires
        m.sound(),
        components(path).len() > 0,
        m.ids_left(2 * (components(path).len() + components(to).len()) + 1),
        diverges(components(other), components(path)),
    ensures
        m.made_dir(path, now).0.lookup(other) == Ok::<u64, Fault>(x) <==> m.lookup(other) == Ok::<
            u64,
            Fault,
        >(x),
        components(to).len() > 0 && diverges(components(other), components(to)) && m.renamed(
            path,
            to,
            now,
        ).1 is Ok ==> (m.renamed(path, to, now).0.lookup(other) == Ok::<u64, Fault>(x)
            <==> m.lookup(other) == Ok::<u64, Fault>(x)),
{
    lemma_placed_leaves_others(m, path, empty_dir(now), now, other);
    let q = components(other);
    if components(to).len() > 0 && diverges(q, components(to)) && m.renamed(path, to, now).1 is Ok {
        let t = m.tree();
        let id = m.lookup(path)->Ok_0;
        law_old_paths_never_change(t, t, m.state.root, components(path));
        law_graft_is_copy_on_write(t, m.state.root, components(to), Some(id), now);
        let (t1, r1) = graft(t, m.state.root, components(to), Some(id), now);
        law_diverging_paths_unchanged(t, m.state.root, components(to), Some(id), now, q, x);
        law_graft_is_copy_on_write(t1, r1->Ok_0, components(path), None, now);
        law_diverging_paths_unchanged(t1, r1->Ok_0, components(path), None, now, q, x);
        let (t2, r2) = graft(t1, r1->Ok_0, components(path), None, now);
        assert(m.renamed(path, to, now).0.tree() =~= t2);
    }
}

/// The live root and the root of every snapshot pin data.
pub proof fn law_roots(m: FsModel, name: Seq<char>)
    requires
        m.snapshots.dom().finite(),
    ensures
        m.roots().len() > 0 && m.roots()[0] == m.state.root,
        m.snapshots.contains_key(name) ==> m.roots().contains(m.snapshots[name].root),
{
    if m.snapshots.contains_key(name) {
        lemma_finite_map_has_entries::<String, SuperBlock>(m.snapshots);
        let all = m.snapshot_entries();
        let k = lemma_map_of_key(all, name);
        lemma_map_of_entry::<String, SuperBlock>(all, k);
        assert(m.roots()[k + 1] == m.snapshots[name].root);
    }
}

/// A file cannot be listed and a directory cannot be read; what is not there can
/// be neither, and the failure is that of the look-up.
pub proof fn law_wrong_kind(m: FsModel, path: Seq<char>)
    ensures
        m.inode_at(path) matches Ok(i) ==> (i is File ==> m.listing(path) == Err::<
            Seq<(Seq<char>, Seq<char>)>,
            Fault,
        >(Fault::IsFile(path))),
        m.inode_at(path) matches Err(e) ==> m.listing(path) == Err::<
            Seq<(Seq<char>, Seq<char>)>,
            Fault,
        >(e),
        m.lookup(path) matches Ok(id) ==> (m.inodes.contains_key(id) ==> m.inode_at(path) == Ok::<
            InodeModel,
            Fault,
        >(m.inodes[id])),
        m.lookup(path) matches Err(e) ==> m.inode_at(path) == Err::<InodeModel, Fault>(e),
{
}

/// The root is where no component leads, and one more component leads to what
/// the directory before it has under that name.
pub proof fn law_lookup_follows_entries(
    inodes: Map<u64, InodeModel>,
    root: u64,
    comps: Seq<Seq<char>>,
    name: Seq<char>,
)
    ensures
        resolve(inodes, root, Seq::empty()) == Ok::<u64, Fault>(root),
        resolve(inodes, root, comps) matches Ok(d) ==> (inodes.contains_key(d) && inodes[d] is Dir
            && inodes[d]->entries.contains_key(name) ==> resolve(inodes, root, comps.push(name))
            == Ok::<u64, Fault>(inodes[d]->entries[name])),
        resolve(inodes, root, comps) matches Ok(d) ==> (inodes.contains_key(d) && inodes[d] is Dir
            && !inodes[d]->entries.contains_key(name) ==> resolve(inodes, root, comps.push(name))
            == Err::<u64, Fault>(Fault::NoSuchComponent(name))),
        resolve(inodes, root, comps) matches Ok(d) ==> (inodes.contains_key(d) && inodes[d] is File
            ==> resolve(inodes, root, comps.push(name)) == Err::<u64, Fault>(
            Fault::NotADirectory(name),
        )),
        resolve(inodes, root, comps) is Err ==> resolve(inodes, root, comps.push(name)) is Err,
    decreases comps.len(),
{
    let longer = comps.push(name);
    if comps.len() == 0 {
        assert(longer[0] == name);
        assert(longer.drop_first() =~= Seq::empty());
        if inodes.contains_key(root) && inodes[root] is Dir && inodes[root]->entries.contains_key(
            name,
        ) {
            assert(resolve(inodes, inodes[root]->entries[name], longer.drop_first()) is Ok);
        }
    } else if inodes.contains_key(root) && inodes[root] is Dir
        && inodes[root]->entries.contains_key(comps[0]) {
        law_lookup_follows_entries(inodes, inodes[root]->entries[comps[0]], comps.drop_first(), name);
        assert(longer[0] == comps[0]);
        assert(longer.drop_first() =~= comps.drop_first().push(name));
    } else {
        assert(longer[0] == comps[0]);
    }
}

proof fn lemma_unique_prefix(b: BlocksModel, live: Seq<(Seq<u8>, ())>, e: (Seq<u8>, ()), n: int)
    requires
        0 <= n <= live.len(),
    ensures
        unique_bytes(b, live.push(e), n) == unique_bytes(b, live, n),
    decreases n,
{
    if n > 0 {
        lemma_unique_prefix(b, live, e, n - 1);
        assert(live.push(e)[n - 1] == live[n - 1]);
    }
}

/// Of different blocks each counts once, with its length; and stored blocks
/// count with theirs.
pub proof fn law_unique_bytes(
    b: BlocksModel,
    live: Seq<(Seq<u8>, ())>,
    k: Seq<u8>,
    s: Seq<(Seq<u8>, Extent)>,
    e: (Seq<u8>, Extent),
)
    ensures
        unique_bytes(b, live.push((k, ())), live.len() as int + 1) == unique_bytes(
            b,
            live,
            live.len() as int,
        ) + b.len_of(k),
        b.index.contains_key(k) ==> b.len_of(k) == b.index[k].len,
        !b.index.contains_key(k) ==> b.len_of(k) == 0,
        unique_bytes(b, Seq::empty(), 0) == 0,
        covered(s.push(e)) == covered(s) + e.1.len,
        covered(Seq::empty()) == 0,
{
    lemma_unique_prefix(b, live, (k, ()), live.len() as int);
    assert(live.push((k, ()))[live.len() as int] == (k, ()));
    crate::blockstore::lemma_covered_take(s.push(e), s.len() as int);
    assert(s.push(e).take(s.len() as int) =~= s);
    assert(s.push(e).take(s.len() as int + 1) =~= s.push(e));
}

/// A block that was stored or read is in the cache, if it takes up no more than
/// a fifth of it.
pub proof fn law_blocks_are_cached(b: BlocksModel, k: Seq<u8>, log: Seq<u8>, bytes: Seq<u8>)
    requires
        b.cache.bounded(),
        b.cache.cap >= 10,
    ensures
        b.block_read(k, log).1 matches Ok(v) ==> (v.len() <= b.cache.cap / 5 ==> b.block_read(
            k,
            log,
        ).0.cache.lookup(k) == Some(v)),
        !b.index.contains_key(digest(bytes)) && bytes.len() <= b.cache.cap / 5 ==> b.stored(
            bytes,
        ).cache.lookup(digest(bytes)) == Some(bytes),
{
    if !b.index.contains_key(digest(bytes)) && bytes.len() <= b.cache.cap / 5 {
        law_new_data_is_admitted(b.cache, digest(bytes), bytes);
    }
    if let Ok(v) = b.block_read(k, log).1 {
        if v.len() <= b.cache.cap / 5 {
            let found = b.cache.looked_up(k);
            if b.cache.lookup(k) is Some {
                law_lookup_finds_what_is_held(b.cache, k, v);
                law_read_loses_nothing(b.cache, k, k, v);
                lemma_looked_up_holds(b.cache, k);
                lemma_looked_up_holds(found, k);
                lemma_held_is_contained(found, k, v);
                law_lookup_finds_what_is_held(b.cache, k, found.lookup(k).unwrap());
            } else {
                law_lookup_finds_what_is_held(b.cache, k, v);
                assert(found == (CacheModel { misses: found.misses, ..b.cache }));
                assert(found.bounded());
                law_new_data_is_admitted(found, k, v);
            }
        }
    }
}

proof fn lemma_dropped(entries: Seq<(Seq<u8>, Extent)>, live: Set<Seq<u8>>, n: int, k: Seq<u8>)
    requires
        0 <= n <= entries.len(),
    ensures
        dropped_keys(entries, live, n).contains(k) <==> !live.contains(k) && exists|i: int|
            0 <= i < n && (#[trigger] entries[i]).0 == k,
    decreases n,
{
    if n > 0 {
        lemma_dropped(entries, live, n - 1, k);
        let before = dropped_keys(entries, live, n - 1);
        let e = entries[n - 1].0;
        if !live.contains(e) {
            assert(before.push(e)[before.len() as int] == e);
            if before.contains(k) {
                let j = choose|j: int| 0 <= j < before.len() && before[j] == k;
                assert(before.push(e)[j] == k);
            }
            if before.push(e).contains(k) && k != e {
                let j = choose|j: int| 0 <= j < before.push(e).len() && before.push(e)[j] == k;
                assert(before[j] == k);
            }
        }
    }
}

/// Compaction takes the blocks that it drops out of the cache and leaves the
/// live ones there.
pub proof fn law_compaction_cleans_the_cache(b: BlocksModel, live: Set<Seq<u8>>, k: Seq<u8>)
    requires
        b.cache.keys_distinct(),
        map_of(b.entries()) == b.index,
    ensures
        b.index.contains_key(k) && !live.contains(k) ==> b.compacted(live).cache.lookup(k) is None,
        live.contains(k) ==> b.compacted(live).cache.lookup(k) == b.cache.lookup(k),
{
    let all = b.entries();
    let dropped = dropped_keys(all, live, all.len() as int);
    lemma_dropped(all, live, all.len() as int, k);
    law_invalidate_all(b.cache, dropped, dropped.len() as int, k);
    assert(dropped.take(dropped.len() as int) =~= dropped);
    if b.index.contains_key(k) {
        let i = choose|i: int| 0 <= i < all.len() && (#[trigger] all[i]).0 == k;
        assert(all[i].0 == k);
    }
}

/// A new volume has an empty root directory of now and no snapshots; a saved one
/// comes back with its tree, its snapshots and its transaction number.
pub proof fn law_opened_volume(saved: Option<Saved>, blocks: BlocksModel, now: i64)
    ensures
        ({
            let m = FsModel::opened(saved, blocks, now);
            &&& saved is None ==> {
                &&& m.inode_at("/"@) == Ok::<InodeModel, Fault>(
                    InodeModel::Dir { entries: Map::empty(), mtime: now },
                )
                &&& m.snapshots.dom().len() == 0
                &&& m.state.txg == 0
                &&& m.sound() && m.whole()
            }
            &&& saved matches Some(s) ==> {
                &&& m.state == s.state
                &&& m.snapshots == s.snapshots@
                &&& forall|id: u64| #[trigger]
                    s.inodes@.contains_key(id) <==> m.inodes.contains_key(id)
                &&& forall|id: u64| #[trigger]
                    s.inodes@.contains_key(id) ==> m.inodes[id] == (*s.inodes@[id])@
            }
            &&& m.blocks == blocks
        }),
{
    reveal_strlit("/");
    assert("/"@ =~= Seq::<char>::empty().push('/') + Seq::<char>::empty());
    law_components_are_parted(Seq::empty(), '/', Seq::empty());
    assert(components(Seq::<char>::empty()).len() == 0);
    assert(components("/"@).len() == 0);
}

/// The files, directories and bytes of the files that are met below the first
/// `n` ids.
spec fn below(inodes: Map<u64, InodeModel>, ids: Seq<u64>, n: int) -> (nat, nat, nat)
    decreases n,
{
    if n <= 0 {
        (0, 0, 0)
    } else {
        let before = below(inodes, ids, n - 1);
        let seen = visited(inodes, ids[n - 1])->Ok_0;
        (
            before.0 + file_count(seen),
            before.1 + dir_count(seen),
            before.2 + logical_bytes(seen),
        )
    }
}

proof fn lemma_counts_append(a: Seq<InodeModel>, b: Seq<InodeModel>)
    ensures
        file_count(a + b) == file_count(a) + file_count(b),
        dir_count(a + b) == dir_count(a) + dir_count(b),
        logical_bytes(a + b) == logical_bytes(a) + logical_bytes(b),
    decreases b.len(),
{
    if b.len() == 0 {
        assert(a + b =~= a);
    } else {
        lemma_counts_append(a, b.drop_last());
        assert((a + b).drop_last() =~= a + b.drop_last());
        assert((a + b).last() == b.last());
    }
}

proof fn lemma_below(inodes: Map<u64, InodeModel>, ids: Seq<u64>, n: nat)
    requires
        visited_all(inodes, ids, n) is Ok,
    ensures
        ({
            let seen = visited_all(inodes, ids, n)->Ok_0;
            below(inodes, ids, n as int) == (
                file_count(seen),
                dir_count(seen),
                logical_bytes(seen),
            )
        }),
    decreases n,
{
    if n > 0 {
        lemma_below(inodes, ids, (n - 1) as nat);
        lemma_counts_append(
            visited_all(inodes, ids, (n - 1) as nat)->Ok_0,
            visited(inodes, ids[n - 1])->Ok_0,
        );
    }
}

proof fn lemma_below_insert(inodes: Map<u64, InodeModel>, ids: Seq<u64>, p: int, c: u64, n: int)
    requires
        0 <= p <= ids.len(),
        0 <= n <= ids.len(),
    ensures
        n <= p ==> below(inodes, ids.insert(p, c), n) == below(inodes, ids, n),
        n >= p ==> ({
            let seen = visited(inodes, c)->Ok_0;
            let b = below(inodes, ids, n);
            below(inodes, ids.insert(p, c), n + 1) == (
                b.0 + file_count(seen),
                b.1 + dir_count(seen),
                b.2 + logical_bytes(seen),
            )
        }),
    decreases n,
{
    let longer = ids.insert(p, c);
    if n > 0 {
        lemma_below_insert(inodes, ids, p, c, n - 1);
        if n <= p {
            assert(longer[n - 1] == ids[n - 1]);
        } else {
            assert(longer[n] == ids[n - 1]);
        }
    }
    if n == p {
        assert(longer[n] == c);
        assert(below(inodes, longer, n) == below(inodes, ids, n));
    } else if n > p {
        assert(below(inodes, longer, n + 1).0 == below(inodes, longer, n).0 + file_count(
            visited(inodes, longer[n])->Ok_0,
        ));
    }
}

/// A directory with one entry more counts what that entry leads to beside all
/// that it counted: every file, directory and byte once.
pub proof fn law_added_entry_is_counted(
    inodes: Map<u64, InodeModel>,
    dir: u64,
    larger: u64,
    name: Seq<char>,
    c: u64,
)
    requires
        listed(inodes),
        inodes.contains_key(dir) && inodes[dir] is Dir,
        inodes.contains_key(larger) && inodes[larger] is Dir,
        !inodes[dir]->entries.contains_key(name),
        inodes[larger]->entries == inodes[dir]->entries.insert(name, c),
        ends(inodes, dir) && ends(inodes, larger),
        visited(inodes, dir) is Ok && visited(inodes, larger) is Ok,
    ensures
        ({
            let (a, b) = (visited(inodes, dir)->Ok_0, visited(inodes, larger)->Ok_0);
            let seen = visited(inodes, c)->Ok_0;
            &&& file_count(b) == file_count(a) + file_count(seen)
            &&& dir_count(b) == dir_count(a) + dir_count(seen)
            &&& logical_bytes(b) == logical_bytes(a) + logical_bytes(seen)
        }),
{
    let entries = inodes[dir]->entries;
    let before = dir_entries(entries);
    let p = lemma_place_for::<String, u64>(before, name);
    lemma_map_of_insert::<String, u64>(before, p, name, c);
    let after = dir_entries(inodes[larger]->entries);
    lemma_entries_unique::<String, u64>(before.insert(p, (name, c)), after);
    let (ids, more) = (dir_children(entries), dir_children(inodes[larger]->entries));
    assert(more =~= ids.insert(p, c));
    lemma_visited(inodes, dir);
    lemma_visited(inodes, larger);
    lemma_below(inodes, ids, ids.len());
    lemma_below(inodes, more, more.len());
    lemma_below_insert(inodes, ids, p, c, ids.len() as int);
    lemma_counts_append(
        seq![inodes[dir]],
        visited_all(inodes, ids, ids.len())->Ok_0,
    );
    lemma_counts_append(
        seq![inodes[larger]],
        visited_all(inodes, more, more.len())->Ok_0,
    );
    lemma_one(inodes[dir]);
    lemma_one(inodes[larger]);
}

proof fn lemma_one(i: InodeModel)
    requires
        i is Dir,
    ensures
        file_count(seq![i]) == 0,
        dir_count(seq![i]) == 1,
        logical_bytes(seq![i]) == 0,
{
    let one = seq![i];
    assert(one.drop_last() =~= Seq::empty());
    assert(one.last() == i);
    assert(file_count(Seq::<InodeModel>::empty()) == 0);
    assert(dir_count(Seq::<InodeModel>::empty()) == 0);
    assert(logical_bytes(Seq::<InodeModel>::empty()) == 0);
}

} // verus!
