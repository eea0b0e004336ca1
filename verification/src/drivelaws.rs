//! What holds of the in-memory drive.

use vstd::prelude::*;

use crate::mountfs::slice_of;
use crate::order::OrderedKey;
use crate::sorted::{
    ascending, entries_of, lemma_entries_unique, lemma_finite_map_has_entries, lemma_map_of_entry,
    lemma_map_of_insert, lemma_map_of_key, lemma_place_for, map_of,
};
use crate::winfsphost::{
    base_name, came_from, child_map, children, in_pages, info_of, is_child, last_backslash,
    law_rename_moves_the_subtree, lemma_child_map_finite, lies_under, moved_nodes, moved_path,
    node_list, overwritten, parent_path, resized, used_bytes, ChildKey, FileInfo, NodeModel, Status,
    VolumeModel, FILETIME_EPOCH, VOLUME_SIZE,
};

verus! {

/// A file of another length keeps its bytes as far as both lengths reach, and
/// what is new is zero.
pub proof fn law_resize(data: Seq<u8>, len: int, i: int)
    requires
        0 <= i < len,
    ensures
        resized(data, len).len() == len,
        i < data.len() ==> resized(data, len)[i] == data[i],
        i >= data.len() ==> resized(data, len)[i] == 0,
{
}

/// A file that is made longer and then as long as it was is the same.
pub proof fn law_resize_there_and_back(data: Seq<u8>, len: int)
    requires
        data.len() <= len,
    ensures
        resized(resized(data, len), data.len() as int) == data,
        resized(data, data.len() as int) == data,
{
    assert(resized(resized(data, len), data.len() as int) =~= data);
    assert(resized(data, data.len() as int) =~= data);
}

/// A write puts its bytes where it begins and leaves every byte outside; it
/// makes a file longer only as far as it reaches, and a gap before it is zero.
pub proof fn law_overwrite(data: Seq<u8>, start: int, bytes: Seq<u8>, i: int)
    requires
        0 <= start,
    ensures
        start + bytes.len() <= data.len() ==> overwritten(data, start, bytes).len() == data.len(),
        start + bytes.len() > data.len() ==> overwritten(data, start, bytes).len() == start
            + bytes.len(),
        0 <= i < bytes.len() ==> overwritten(data, start, bytes)[start + i] == bytes[i],
        0 <= i < data.len() && (i < start || i >= start + bytes.len()) ==> overwritten(
            data,
            start,
            bytes,
        )[i] == data[i],
        data.len() <= i < start && bytes.len() > 0 ==> overwritten(data, start, bytes)[i] == 0,
{
}

/// A write at the end of the file begins there, wherever the offset points, and
/// another one at the offset.
pub proof fn law_write_begins(n: NodeModel, offset: u64)
    ensures
        n.write_start(offset, true) == n.data.len(),
        n.write_start(offset, false) == offset,
{
}

/// A write takes all its bytes, unless it must not make the file longer: then it
/// takes those that fit.
pub proof fn law_write_takes(n: NodeModel, start: int, len: int)
    requires
        0 <= start,
        0 <= len,
    ensures
        n.write_len(start, len, false) == len,
        0 <= n.write_len(start, len, true) <= len,
        n.write_len(start, len, true) > 0 ==> start + n.write_len(start, len, true)
            <= n.data.len(),
        n.write_len(start, len, true) < len ==> start + n.write_len(start, len, true)
            >= n.data.len(),
{
}

/// What was written is read back, and so is everything around it.
pub proof fn law_read_after_write(
    data: Seq<u8>,
    start: int,
    bytes: Seq<u8>,
    offset: int,
    size: int,
    i: int,
)
    requires
        0 <= start,
        0 <= offset,
        0 <= i < size,
        offset + i < overwritten(data, start, bytes).len(),
    ensures
        ({
            let r = slice_of(overwritten(data, start, bytes), offset, size);
            let at = offset + i;
            &&& i < r.len()
            &&& start <= at < start + bytes.len() ==> r[i] == bytes[at - start]
            &&& !(start <= at < start + bytes.len()) && at < data.len() ==> r[i] == data[at]
        }),
{
}

/// A size in pages is the least multiple of 4 KiB that holds the file.
pub proof fn law_pages(len: int)
    requires
        0 <= len,
    ensures
        in_pages(len) % 4096 == 0,
        len <= in_pages(len) < len + 4096,
{
}

/// The driver is told the size, the attributes, the times and the number of a
/// node as they are.
pub proof fn law_info(n: NodeModel)
    requires
        n.data.len() + 4095 <= u64::MAX,
    ensures
        info_of(n).file_size == n.data.len(),
        info_of(n).allocation_size >= n.data.len(),
        info_of(n).allocation_size < n.data.len() + 4096,
        info_of(n).allocation_size % 4096 == 0,
        info_of(n).file_attributes == n.attributes,
        info_of(n).creation_time == n.creation_time,
        info_of(n).last_access_time == n.last_access_time,
        info_of(n).last_write_time == n.last_write_time,
        info_of(n).change_time == n.change_time,
        info_of(n).index_number == n.index_number,
{
    law_pages(n.data.len() as int);
}

proof fn lemma_last_backslash(a: Seq<char>, b: Seq<char>, n: int)
    requires
        0 <= n <= b.len(),
        forall|i: int| 0 <= i < b.len() ==> #[trigger] b[i] != '\\',
    ensures
        last_backslash(a.push('\\') + b, a.len() + 1 + n) == a.len(),
    decreases n,
{
    let s = a.push('\\') + b;
    if n > 0 {
        lemma_last_backslash(a, b, n - 1);
        assert(s[a.len() + n] == b[n - 1]);
    } else {
        assert(s[a.len() as int] == '\\');
    }
}

/// A name in a directory has that directory as its parent, and itself as its
/// name there.
pub proof fn law_parent_and_name(dir: Seq<char>, name: Seq<char>)
    requires
        forall|i: int| 0 <= i < name.len() ==> #[trigger] name[i] != '\\',
    ensures
        dir.len() > 0 ==> parent_path(dir.push('\\') + name) == dir,
        parent_path(seq!['\\'] + name) == seq!['\\'],
        base_name(dir.push('\\') + name) == name,
        base_name(seq!['\\'] + name) == name,
        dir.len() > 0 && name.len() > 0 ==> is_child(dir.push('\\') + name, dir),
        name.len() > 0 ==> is_child(seq!['\\'] + name, seq!['\\']),
{
    let s = dir.push('\\') + name;
    lemma_last_backslash(dir, name, name.len() as int);
    assert(s.len() == dir.len() + 1 + name.len());
    assert(s.take(dir.len() as int) =~= dir);
    assert(s.skip(dir.len() as int + 1) =~= name);
    let none = Seq::<char>::empty();
    lemma_last_backslash(none, name, name.len() as int);
    let r = seq!['\\'] + name;
    assert(none.push('\\') + name =~= r);
    assert(r.skip(1) =~= name);
}

/// What stands deeper is no entry of a directory.
pub proof fn law_deeper_is_no_child(dir: Seq<char>, mid: Seq<char>, name: Seq<char>)
    requires
        dir.len() > 0,
        mid.len() > 0,
        forall|i: int| 0 <= i < name.len() ==> #[trigger] name[i] != '\\',
    ensures
        !is_child((dir.push('\\') + mid).push('\\') + name, dir),
{
    law_parent_and_name(dir.push('\\') + mid, name);
    assert((dir.push('\\') + mid).len() > dir.len());
}

/// A new directory has only the attribute of one. A new file keeps the
/// attributes that were asked for, without that of a directory and with that of
/// a changed file. Both are empty and of now, and have a number of their own.
pub proof fn law_new_node(m: VolumeModel, attributes: u32, now: u64)
    ensures
        m.new_node(true, attributes, now).is_dir,
        m.new_node(true, attributes, now).attributes == 0x10,
        !m.new_node(false, attributes, now).is_dir,
        m.new_node(false, attributes, now).attributes & 0x10 == 0,
        m.new_node(false, attributes, now).attributes & 0x20 == 0x20,
        m.new_node(false, attributes, now).attributes | 0x30 == attributes | 0x30,
        forall|d: bool|
            {
                let n = #[trigger] m.new_node(d, attributes, now);
                &&& n.data.len() == 0
                &&& n.creation_time == now
                &&& n.last_access_time == now
                &&& n.last_write_time == now
                &&& n.change_time == now
                &&& n.index_number == m.next_index
            },
{
    assert(((attributes & !0x10u32) | 0x20u32) & 0x10 == 0) by (bit_vector);
    assert(((attributes & !0x10u32) | 0x20u32) & 0x20 == 0x20) by (bit_vector);
    assert(((attributes & !0x10u32) | 0x20u32) | 0x30 == attributes | 0x30) by (bit_vector);
}

/// A new drive has a root directory and nothing else.
pub proof fn law_fresh(now: u64, k: Seq<char>)
    ensures
        VolumeModel::fresh(now).nodes.contains_key(k) <==> k == seq!['\\'],
        VolumeModel::fresh(now).nodes[seq!['\\']].is_dir,
        VolumeModel::fresh(now).nodes[seq!['\\']].creation_time == now,
        VolumeModel::fresh(now).nodes[seq!['\\']].index_number
            < VolumeModel::fresh(now).next_index,
        !VolumeModel::fresh(now).has_child(seq!['\\']),
{
}

/// A directory has a child where a node of the drive stands in it, and changing
/// a node changes no other.
pub proof fn law_children_and_changes(
    m: VolumeModel,
    dir: Seq<char>,
    k: Seq<char>,
    n: NodeModel,
    o: Seq<char>,
)
    ensures
        m.nodes.contains_key(k) && is_child(k, dir) ==> m.has_child(dir),
        m.with_node(k, n).nodes.contains_key(k) && m.with_node(k, n).nodes[k] == n,
        o != k ==> m.with_node(k, n).nodes.contains_key(o) == m.nodes.contains_key(o) && m.with_node(
            k,
            n,
        ).nodes[o] == m.nodes[o],
        m.with_node(k, n).next_index == m.next_index,
{
}

/// What a listing shows are nodes of the directory, each with its name and what
/// is told of it, and each once.
pub proof fn law_listed_nodes(nodes: Map<Seq<char>, NodeModel>, dir: Seq<char>, i: int, j: int) -> (ks: (
    Seq<char>,
    Seq<char>,
))
    requires
        nodes.dom().finite(),
        0 <= i < j < children(nodes, dir).len(),
    ensures
        nodes.contains_key(ks.0) && is_child(ks.0, dir),
        children(nodes, dir)[i] == (base_name(ks.0), info_of(nodes[ks.0])),
        nodes.contains_key(ks.1) && is_child(ks.1, dir),
        children(nodes, dir)[j] == (base_name(ks.1), info_of(nodes[ks.1])),
        ks.0 != ks.1,
{
    let m = child_map(nodes, dir);
    lemma_child_map_finite(nodes, dir);
    lemma_finite_map_has_entries::<ChildKey, FileInfo>(m);
    let all = entries_of::<ChildKey, FileInfo>(m);
    lemma_map_of_entry::<ChildKey, FileInfo>(all, i);
    lemma_map_of_entry::<ChildKey, FileInfo>(all, j);
    assert(m.contains_key(all[i].0) && m.contains_key(all[j].0));
    assert(ChildKey::before(all[i].0, all[j].0));
    if all[i].0.1 == all[j].0.1 {
        assert(all[i].0 == all[j].0);
        ChildKey::irreflexive(all[i].0);
    }
    (all[i].0.1, all[j].0.1)
}

/// What lies under a path is the path itself and everything that goes on behind
/// a backslash; a longer name is something else. It moves with the path.
pub proof fn law_subtree(from: Seq<char>, to: Seq<char>, rest: Seq<char>, k: Seq<char>)
    ensures
        lies_under(from, from),
        lies_under(from.push('\\') + rest, from),
        rest.len() > 0 && rest[0] != '\\' ==> !lies_under(from + rest, from),
        lies_under(k, from) ==> from.is_prefix_of(k),
        moved_path(from + rest, from, to) == to + rest,
{
    let s = from.push('\\') + rest;
    assert(s.take(from.len() as int) =~= from);
    assert(s[from.len() as int] == '\\');
    let t = from + rest;
    if rest.len() > 0 {
        assert(t[from.len() as int] == rest[0]);
    }
    assert(t.skip(from.len() as int) =~= rest);
    if lies_under(k, from) && k != from {
        assert(k.take(from.len() as int) =~= from);
        assert forall|i: int| 0 <= i < from.len() implies from[i] == k[i] by {
            assert(k.take(from.len() as int)[i] == k[i]);
        }
    }
}

/// A rename leaves every node that lies under neither path, and brings none
/// from anywhere else.
pub proof fn law_rename_leaves_others(
    nodes: Map<Seq<char>, NodeModel>,
    from: Seq<char>,
    to: Seq<char>,
    k: Seq<char>,
)
    ensures
        nodes.contains_key(k) && !lies_under(k, from) && !to.is_prefix_of(k) ==> moved_nodes(
            nodes,
            from,
            to,
        ).contains_key(k) && moved_nodes(nodes, from, to)[k] == nodes[k],
        moved_nodes(nodes, from, to).contains_key(k) && !to.is_prefix_of(k)
            ==> nodes.contains_key(k) && !lies_under(k, from),
{
    if exists|a: Seq<char>| came_from(nodes, from, to, k, a) {
        let a = choose|a: Seq<char>| came_from(nodes, from, to, k, a);
        assert(k =~= to + a.skip(from.len() as int));
        assert(to.is_prefix_of(k));
    }
}

/// A node below the new path stays where nothing is moved onto it.
pub proof fn law_rename_keeps_what_is_not_replaced(
    nodes: Map<Seq<char>, NodeModel>,
    from: Seq<char>,
    to: Seq<char>,
    rest: Seq<char>,
)
    requires
        nodes.contains_key(to + rest),
        !lies_under(to + rest, from),
        !nodes.contains_key(from + rest),
    ensures
        moved_nodes(nodes, from, to).contains_key(to + rest),
        moved_nodes(nodes, from, to)[to + rest] == nodes[to + rest],
{
    let k = to + rest;
    if exists|a: Seq<char>| came_from(nodes, from, to, k, a) {
        let a = choose|a: Seq<char>| came_from(nodes, from, to, k, a);
        law_subtree(from, to, rest, a);
        assert(a =~= from + a.skip(from.len() as int));
        assert(a.skip(from.len() as int) =~= k.skip(to.len() as int));
        assert(k.skip(to.len() as int) =~= rest);
    }
}

proof fn lemma_used_append(a: Seq<(Seq<char>, NodeModel)>, p: int, e: (Seq<char>, NodeModel), n: int)
    requires
        0 <= p <= a.len(),
        0 <= n <= a.len() + 1,
    ensures
        used_bytes(a.insert(p, e), n) == if n <= p {
            used_bytes(a, n)
        } else {
            used_bytes(a, n - 1) + e.1.data.len()
        },
    decreases n,
{
    if n > 0 {
        lemma_used_append(a, p, e, n - 1);
        assert(a.insert(p, e)[n - 1] == if n - 1 < p {
            a[n - 1]
        } else if n - 1 == p {
            e
        } else {
            a[n - 2]
        });
    }
}

/// A node that is added uses as many bytes as it holds; an empty drive uses
/// none. The drive has 4 GiB, and its times count from 1601 in units of 100 ns.
pub proof fn law_used_bytes(nodes: Map<Seq<char>, NodeModel>, k: Seq<char>, n: NodeModel)
    requires
        nodes.dom().finite(),
        !nodes.contains_key(k),
    ensures
        ({
            let before = node_list(nodes);
            let after = node_list(nodes.insert(k, n));
            &&& used_bytes(after, after.len() as int) == used_bytes(before, before.len() as int)
                + n.data.len()
            &&& after.len() == before.len() + 1
        }),
        node_list(Map::<Seq<char>, NodeModel>::empty()).len() == 0,
        VOLUME_SIZE == 4 * 1024 * 1024 * 1024,
        FILETIME_EPOCH == 11_644_473_600 * 10_000_000,
{
    lemma_finite_map_has_entries::<String, NodeModel>(nodes);
    let before = node_list(nodes);
    let p = lemma_place_for::<String, NodeModel>(before, k);
    lemma_map_of_insert::<String, NodeModel>(before, p, k, n);
    let grown = before.insert(p, (k, n));
    let after = node_list(nodes.insert(k, n));
    assert(ascending::<String, NodeModel>(after) && map_of(after) == nodes.insert(k, n));
    lemma_entries_unique::<String, NodeModel>(grown, after);
    lemma_used_append(before, p, (k, n), grown.len() as int);
    let none = Map::<Seq<char>, NodeModel>::empty();
    lemma_finite_map_has_entries::<String, NodeModel>(none);
    let empty = Seq::<(Seq<char>, NodeModel)>::empty();
    assert(map_of(empty) =~= none);
    assert(ascending::<String, NodeModel>(empty));
    lemma_entries_unique::<String, NodeModel>(empty, node_list(none));
}

/// What is created is there: it can be opened, is empty, is a directory where one
/// was asked for, and has a number that nothing had before. Nothing is created
/// where something is, or outside a directory.
pub proof fn law_create(
    m: VolumeModel,
    key: Seq<char>,
    create_options: u32,
    file_attributes: u32,
    now: u64,
    other: Seq<char>,
)
    requires
        m.next_index < u64::MAX,
        forall|k: Seq<char>| #[trigger]
            m.nodes.contains_key(k) ==> m.nodes[k].index_number < m.next_index,
    ensures
        ({
            let (after, r) = m.created(key, create_options, file_attributes, now);
            let parent = parent_path(key);
            &&& m.nodes.contains_key(key) ==> r == Err::<FileInfo, Status>(
                Status::ObjectNameCollision,
            )
            &&& !m.nodes.contains_key(key) && (m.nodes.contains_key(parent)
                ==> !m.nodes[parent].is_dir) ==> r == Err::<FileInfo, Status>(
                Status::ObjectNameNotFound,
            )
            &&& r is Err ==> after == m
            &&& r is Ok <==> !m.nodes.contains_key(key) && m.nodes.contains_key(parent)
                && m.nodes[parent].is_dir
            &&& r is Ok ==> {
                &&& after.opening(key) == r
                &&& after.nodes[key].is_dir <==> create_options & 1 != 0
                &&& r->Ok_0.file_size == 0
                &&& r->Ok_0.creation_time == now
                &&& after.content(key, 0, 1) == Err::<Seq<u8>, Status>(Status::EndOfFile)
                &&& m.nodes.contains_key(other) ==> after.nodes.contains_key(other)
                    && after.nodes[other] == m.nodes[other] && r->Ok_0.index_number
                    != m.nodes[other].index_number
                &&& other != key && !m.nodes.contains_key(other) ==> !after.nodes.contains_key(
                    other,
                )
                &&& forall|k: Seq<char>| #[trigger]
                    after.nodes.contains_key(k) ==> after.nodes[k].index_number < after.next_index
            }
        }),
{
}

/// What is deleted is gone, unless something stands in it; nothing else is.
pub proof fn law_delete(m: VolumeModel, key: Seq<char>, child: Seq<char>, other: Seq<char>)
    ensures
        m.nodes.contains_key(child) && is_child(child, key) ==> m.deleted(key) == m,
        !m.has_child(key) ==> m.deleted(key).opening(key) == Err::<FileInfo, Status>(
            Status::ObjectNameNotFound,
        ),
        other != key ==> m.deleted(key).nodes.contains_key(other) == m.nodes.contains_key(other)
            && m.deleted(key).opening(other) == m.opening(other),
        m.deleted(key).next_index == m.next_index,
{
}

/// What is written to a node is read back from it: at its offset, or behind what
/// was there. The rest of the node stays, and so do all others.
pub proof fn law_written_bytes_are_read(
    m: VolumeModel,
    key: Seq<char>,
    bytes: Seq<u8>,
    offset: u64,
    to_eof: bool,
    now: u64,
    other: Seq<char>,
)
    requires
        m.nodes.contains_key(key),
        bytes.len() > 0,
        offset + bytes.len() <= usize::MAX,
        m.nodes[key].data.len() + bytes.len() <= usize::MAX,
    ensures
        ({
            let before = m.nodes[key].data;
            let at = if to_eof {
                before.len() as int
            } else {
                offset as int
            };
            let (after, r) = m.wrote(key, bytes, offset, to_eof, false, now);
            &&& r is Ok && r->Ok_0.0 == bytes.len()
            &&& after.content(key, at, bytes.len() as int) == Ok::<Seq<u8>, Status>(bytes)
            &&& 0 < at <= before.len() ==> after.content(key, 0, at) == m.content(key, 0, at)
            &&& after.opening(key) == Ok::<FileInfo, Status>(r->Ok_0.1)
            &&& r->Ok_0.1.file_size == if at + bytes.len() > before.len() {
                at + bytes.len()
            } else {
                before.len() as int
            }
            &&& r->Ok_0.1.last_write_time == now
            &&& r->Ok_0.1.creation_time == m.nodes[key].creation_time
            &&& r->Ok_0.1.index_number == m.nodes[key].index_number
            &&& other != key ==> after.opening(other) == m.opening(other) && (forall|o: int, n: int|
             #[trigger]
                after.content(other, o, n) == m.content(other, o, n))
        }),
{
    let before = m.nodes[key].data;
    let at = if to_eof {
        before.len() as int
    } else {
        offset as int
    };
    let (after, r) = m.wrote(key, bytes, offset, to_eof, false, now);
    assert(bytes.take(bytes.len() as int) =~= bytes);
    assert(after.nodes[key].data == overwritten(before, at, bytes));
    assert(slice_of(after.nodes[key].data, at, bytes.len() as int) =~= bytes);
    if 0 < at <= before.len() {
        assert(slice_of(after.nodes[key].data, 0, at) =~= slice_of(before, 0, at));
    }
}

/// A write that may not make the node longer does not: it takes what fits.
pub proof fn law_constrained_write(
    m: VolumeModel,
    key: Seq<char>,
    bytes: Seq<u8>,
    offset: u64,
    to_eof: bool,
    now: u64,
)
    requires
        m.nodes.contains_key(key),
        m.nodes[key].data.len() <= usize::MAX,
    ensures
        ({
            let (after, r) = m.wrote(key, bytes, offset, to_eof, true, now);
            let len = m.nodes[key].data.len();
            &&& r is Ok
            &&& after.nodes[key].data.len() == len
            &&& to_eof || offset >= len ==> r->Ok_0.0 == 0 && after == m
            &&& !to_eof && offset + bytes.len() <= len && offset < len ==> r->Ok_0.0 == bytes.len()
                && after.content(key, offset as int, bytes.len() as int) == Ok::<Seq<u8>, Status>(
                bytes,
            )
            &&& !to_eof && offset < len < offset + bytes.len() ==> r->Ok_0.0 == len - offset
                && after.content(key, offset as int, bytes.len() as int) == Ok::<Seq<u8>, Status>(
                bytes.take(len - offset),
            )
        }),
{
    let (after, r) = m.wrote(key, bytes, offset, to_eof, true, now);
    let before = m.nodes[key].data;
    let len = before.len();
    if !to_eof && offset < len {
        if offset + bytes.len() <= len {
            assert(bytes.take(bytes.len() as int) =~= bytes);
            assert(slice_of(after.nodes[key].data, offset as int, bytes.len() as int) =~= bytes);
        } else {
            assert(slice_of(after.nodes[key].data, offset as int, bytes.len() as int)
                =~= bytes.take(len - offset));
        }
    }
}

/// After a node got another length its first bytes are read as before, as far as
/// both lengths reach, and what is new is read as zeros; other nodes stay.
pub proof fn law_resized_node_is_read(
    m: VolumeModel,
    key: Seq<char>,
    len: int,
    now: u64,
    n: int,
    other: Seq<char>,
)
    requires
        m.nodes.contains_key(key),
        0 <= len <= u64::MAX,
        0 < n <= len,
    ensures
        ({
            let (after, r) = m.sized(key, len, now);
            &&& r is Ok && r->Ok_0.file_size == len && r->Ok_0.last_write_time == now
            &&& after.opening(key) == r
            &&& n <= m.nodes[key].data.len() ==> after.content(key, 0, n) == m.content(key, 0, n)
            &&& m.nodes[key].data.len() <= len - n ==> after.content(key, len - n, n) == Ok::<
                Seq<u8>,
                Status,
            >(Seq::new(n as nat, |i: int| 0u8))
            &&& after.content(key, len, n) == Err::<Seq<u8>, Status>(Status::EndOfFile)
            &&& other != key ==> after.opening(other) == m.opening(other) && (forall|o: int, s: int|
             #[trigger]
                after.content(other, o, s) == m.content(other, o, s))
        }),
{
    let (after, r) = m.sized(key, len, now);
    let before = m.nodes[key].data;
    if n <= before.len() {
        assert(slice_of(after.nodes[key].data, 0, n) =~= slice_of(before, 0, n));
    }
    if before.len() <= len - n {
        assert(slice_of(after.nodes[key].data, len - n, n) =~= Seq::new(n as nat, |i: int| 0u8));
    }
}

/// What is not there can be neither read, written nor resized, and trying
/// changes nothing.
pub proof fn law_missing_node_is_refused(
    m: VolumeModel,
    key: Seq<char>,
    bytes: Seq<u8>,
    offset: u64,
    to_eof: bool,
    constrained: bool,
    now: u64,
)
    requires
        !m.nodes.contains_key(key),
    ensures
        m.opening(key) == Err::<FileInfo, Status>(Status::ObjectNameNotFound),
        m.content(key, offset as int, bytes.len() as int) == Err::<Seq<u8>, Status>(
            Status::ObjectNameNotFound,
        ),
        m.wrote(key, bytes, offset, to_eof, constrained, now) == (
            m,
            Err::<(usize, FileInfo), Status>(Status::AccessDenied),
        ),
        m.sized(key, bytes.len() as int, now) == (
            m,
            Err::<FileInfo, Status>(Status::ObjectNameNotFound),
        ),
{
}

/// A rename onto something is refused and changes nothing, unless it may be
/// replaced. Else the node is found under its new path, with its content, and no
/// longer under the old one.
pub proof fn law_rename(m: VolumeModel, from: Seq<char>, to: Seq<char>, replace_if_exists: bool)
    requires
        m.nodes.contains_key(from),
        !lies_under(to, from),
        !lies_under(from, to),
    ensures
        ({
            let (after, r) = m.renamed(from, to, replace_if_exists);
            &&& r is Err <==> m.nodes.contains_key(to) && !replace_if_exists
            &&& r is Err ==> r == Err::<(), Status>(Status::ObjectNameCollision) && after == m
            &&& r is Ok ==> {
                &&& after.nodes.contains_key(to) && after.nodes[to] == m.nodes[from]
                &&& after.opening(from) == Err::<FileInfo, Status>(Status::ObjectNameNotFound)
            }
            &&& after.next_index == m.next_index
        }),
{
    law_rename_moves_the_subtree(m.nodes, from, to, from);
    assert(moved_path(from, from, to) =~= to);
}

/// Every node of a directory is listed, under its name.
pub proof fn law_every_child_is_listed(
    nodes: Map<Seq<char>, NodeModel>,
    dir: Seq<char>,
    k: Seq<char>,
)
    requires
        nodes.dom().finite(),
        nodes.contains_key(k),
        is_child(k, dir),
    ensures
        children(nodes, dir).contains((base_name(k), info_of(nodes[k]))),
{
    let m = child_map(nodes, dir);
    lemma_child_map_finite(nodes, dir);
    lemma_finite_map_has_entries::<ChildKey, FileInfo>(m);
    let all = entries_of::<ChildKey, FileInfo>(m);
    let key = (base_name(k), k);
    assert(m.contains_key(key));
    let i = lemma_map_of_key(all, key);
    lemma_map_of_entry::<ChildKey, FileInfo>(all, i);
    assert(children(nodes, dir)[i] == (base_name(k), info_of(nodes[k])));
}

/// A path without a backslash lies in the root and is its own name.
pub proof fn law_path_without_a_backslash(key: Seq<char>)
    requires
        !key.contains('\\'),
    ensures
        parent_path(key) == seq!['\\'],
        base_name(key) == key,
{
    lemma_no_backslash(key, key.len() as int);
    assert(key.skip(0) =~= key);
}

proof fn lemma_no_backslash(s: Seq<char>, n: int)
    requires
        0 <= n <= s.len(),
        !s.contains('\\'),
    ensures
        last_backslash(s, n) == -1,
    decreases n,
{
    if n > 0 {
        lemma_no_backslash(s, n - 1);
        assert(s[n - 1] != '\\');
    }
}

/// Attributes and times that are given replace those of the node, a zero leaves
/// them, and nothing else of the node or of any other changes.
pub proof fn law_basic_info(m: VolumeModel, key: Seq<char>, given: FileInfo, other: Seq<char>)
    requires
        m.nodes.contains_key(key),
    ensures
        ({
            let (after, r) = m.informed(key, given);
            let (old_node, node) = (m.nodes[key], after.nodes[key]);
            &&& r == after.opening(key) && r is Ok
            &&& given.file_attributes == 0 || given.file_attributes == 0xffff_ffff
                ==> node.attributes == old_node.attributes
            &&& given.file_attributes != 0 && given.file_attributes != 0xffff_ffff
                ==> node.attributes == given.file_attributes
            &&& given.creation_time == 0 ==> node.creation_time == old_node.creation_time
            &&& given.creation_time != 0 ==> node.creation_time == given.creation_time
            &&& given.last_access_time == 0 ==> node.last_access_time == old_node.last_access_time
            &&& given.last_access_time != 0 ==> node.last_access_time == given.last_access_time
            &&& given.last_write_time == 0 ==> node.last_write_time == old_node.last_write_time
            &&& given.last_write_time != 0 ==> node.last_write_time == given.last_write_time
            &&& given.change_time == 0 ==> node.change_time == old_node.change_time
            &&& given.change_time != 0 ==> node.change_time == given.change_time
            &&& node.data == old_node.data && node.is_dir == old_node.is_dir && node.index_number
                == old_node.index_number
            &&& other != key ==> after.opening(other) == m.opening(other)
        }),
{
}

/// A listing of a directory begins with the directory itself and its parent, and
/// shows every node in it.
pub proof fn law_listing(m: VolumeModel, dir: Seq<char>, k: Seq<char>)
    requires
        m.nodes.dom().finite(),
        m.nodes.contains_key(dir),
        m.nodes.contains_key(parent_path(dir)),
    ensures
        ({
            let l = m.listing(dir);
            &&& l.len() == children(m.nodes, dir).len() + 2
            &&& l[0] == ("."@, info_of(m.nodes[dir]))
            &&& l[1] == (".."@, info_of(m.nodes[parent_path(dir)]))
            &&& m.nodes.contains_key(k) && is_child(k, dir) ==> l.contains(
                (base_name(k), info_of(m.nodes[k])),
            )
        }),
{
    if m.nodes.contains_key(k) && is_child(k, dir) {
        law_every_child_is_listed(m.nodes, dir, k);
        let c = children(m.nodes, dir);
        let i = choose|i: int| 0 <= i < c.len() && c[i] == (base_name(k), info_of(m.nodes[k]));
        assert(m.listing(dir)[i + 2] == c[i]);
    }
}

} // verus!
