//! The copy-on-write tree of inodes, as a mathematical object.
//!
//! Inodes stand in a table under increasing ids and are never changed: every
//! modification adds inodes and ends in a new root.

use vstd::prelude::*;

use crate::sorted::{ascending, entries_of, lemma_map_of_entry, lemma_map_of_key, map_of};

verus! {

/// What an inode holds.
#[verifier::ext_equal]
pub enum InodeModel {
    File {
        size: u64,
        /// The addresses of the blocks, in order.
        blocks: Seq<Seq<u8>>,
        /// The content, where there are no blocks.
        data: Seq<u8>,
        mtime: i64,
        mode: u32,
    },
    Dir { entries: Map<Seq<char>, u64>, mtime: i64 },
}

/// Why an operation on a filesystem failed.
#[verifier::ext_equal]
pub enum Fault {
    WriteRoot,
    RemoveRoot,
    RenameRoot,
    IsDirectory(Seq<char>),
    IsFile(Seq<char>),
    NoSuchComponent(Seq<char>),
    NotADirectory(Seq<char>),
    TraversesFile,
    NoSuchEntry(Seq<char>),
    NoSuchSnapshot(Seq<char>),
    DanglingInode(u64),
    BlockNotFound(Seq<u8>),
    IntegrityFailed { expected: Seq<u8>, actual: Seq<u8> },
}

/// A table of inodes and the id that the next inode gets.
#[verifier::ext_equal]
pub struct Tree {
    pub inodes: Map<u64, InodeModel>,
    pub next: nat,
}

/// An inode with no entries.
pub open spec fn empty_dir(now: i64) -> InodeModel {
    InodeModel::Dir { entries: Map::empty(), mtime: now }
}

impl Tree {
    /// The tree with one more inode.
    pub open spec fn put(self, inode: InodeModel) -> Tree {
        Tree { inodes: self.inodes.insert(self.next as u64, inode), next: self.next + 1 }
    }

    /// Ids are below the next one, and a directory's entries have ids below
    /// its own.
    pub open spec fn sound(self) -> bool {
        &&& self.next <= u64::MAX
        &&& forall|id: u64| #[trigger] self.inodes.contains_key(id) ==> id < self.next
        &&& forall|id: u64, name: Seq<char>|
            #![trigger self.inodes[id]->entries[name]]
            self.inodes.contains_key(id) && self.inodes[id] is Dir
                && self.inodes[id]->entries.contains_key(name) ==> self.inodes[id]->entries[name]
                < id
    }

    /// Every directory entry leads to an inode.
    pub open spec fn whole(self) -> bool {
        forall|id: u64, name: Seq<char>|
            #![trigger self.inodes[id]->entries[name]]
            self.inodes.contains_key(id) && self.inodes[id] is Dir
                && self.inodes[id]->entries.contains_key(name) ==> self.inodes.contains_key(
                self.inodes[id]->entries[name],
            )
    }

    /// `later` holds every inode of this tree unchanged, and what it adds has
    /// ids that this tree had not given out.
    pub open spec fn extended_by(self, later: Tree) -> bool {
        &&& self.next <= later.next
        &&& forall|id: u64| #[trigger]
            self.inodes.contains_key(id) ==> later.inodes.contains_key(id) && later.inodes[id]
                == self.inodes[id]
        &&& forall|id: u64| #[trigger]
            later.inodes.contains_key(id) && !self.inodes.contains_key(id) ==> id >= self.next
    }
}

/// The id that the path `comps` leads to from `id`.
pub open spec fn resolve(inodes: Map<u64, InodeModel>, id: u64, comps: Seq<Seq<char>>) -> Result<
    u64,
    Fault,
>
    decreases comps.len(),
{
    if comps.len() == 0 {
        Ok(id)
    } else if !inodes.contains_key(id) {
        Err(Fault::DanglingInode(id))
    } else {
        match inodes[id] {
            InodeModel::Dir { entries, .. } => if entries.contains_key(comps[0]) {
                resolve(inodes, entries[comps[0]], comps.drop_first())
            } else {
                Err(Fault::NoSuchComponent(comps[0]))
            },
            InodeModel::File { .. } => Err(Fault::NotADirectory(comps[0])),
        }
    }
}

/// The directory chain along `comps` rebuilt from the directory `dir` on:
/// with `leaf = Some(id)` the last component leads to `id`, and directories
/// that are missing on the way are made; with `None` the last component is
/// taken out. Gives the tree afterwards, also where it fails, and the id of
/// the new directory.
pub open spec fn graft(
    t: Tree,
    dir: u64,
    comps: Seq<Seq<char>>,
    leaf: Option<u64>,
    now: i64,
) -> (Tree, Result<u64, Fault>)
    decreases comps.len(),
{
    if comps.len() == 0 {
        (t, Ok(dir))
    } else if !t.inodes.contains_key(dir) {
        (t, Err(Fault::DanglingInode(dir)))
    } else {
        match t.inodes[dir] {
            InodeModel::File { .. } => (t, Err(Fault::TraversesFile)),
            InodeModel::Dir { entries, .. } => {
                let name = comps[0];
                if comps.len() == 1 {
                    match leaf {
                        Some(id) => {
                            let changed = InodeModel::Dir {
                                entries: entries.insert(name, id),
                                mtime: now,
                            };
                            (t.put(changed), Ok(t.next as u64))
                        },
                        None => if entries.contains_key(name) {
                            let changed = InodeModel::Dir {
                                entries: entries.remove(name),
                                mtime: now,
                            };
                            (t.put(changed), Ok(t.next as u64))
                        } else {
                            (t, Err(Fault::NoSuchEntry(name)))
                        },
                    }
                } else {
                    let (t1, child) = if entries.contains_key(name) {
                        (t, entries[name])
                    } else {
                        (t.put(empty_dir(now)), t.next as u64)
                    };
                    let (t2, below) = graft(t1, child, comps.drop_first(), leaf, now);
                    match below {
                        Err(e) => (t2, Err(e)),
                        Ok(new_child) => {
                            let changed = InodeModel::Dir {
                                entries: entries.insert(name, new_child),
                                mtime: now,
                            };
                            (t2.put(changed), Ok(t2.next as u64))
                        },
                    }
                }
            },
        }
    }
}

/// Ids that were given out by a tree lead to the same places in every later
/// tree.
pub proof fn law_old_paths_never_change(t: Tree, later: Tree, id: u64, comps: Seq<Seq<char>>)
    requires
        t.sound(),
        t.extended_by(later),
        id < t.next,
    ensures
        resolve(later.inodes, id, comps) == resolve(t.inodes, id, comps),
        resolve(t.inodes, id, comps) is Ok ==> resolve(t.inodes, id, comps)->Ok_0 < t.next,
    decreases comps.len(),
{
    if comps.len() > 0 && t.inodes.contains_key(id) {
        match t.inodes[id] {
            InodeModel::Dir { entries, .. } => {
                if entries.contains_key(comps[0]) {
                    assert(t.inodes[id]->entries[comps[0]] < id);
                    law_old_paths_never_change(t, later, entries[comps[0]], comps.drop_first());
                }
            },
            InodeModel::File { .. } => {},
        }
    }
}

/// One step of extension after another is an extension.
pub proof fn lemma_extended_transitive(a: Tree, b: Tree, c: Tree)
    requires
        a.extended_by(b),
        b.extended_by(c),
    ensures
        a.extended_by(c),
{
}

/// Adding an inode extends a tree.
pub proof fn lemma_put_extends(t: Tree, inode: InodeModel)
    requires
        t.sound(),
        t.next < u64::MAX,
        inode is Dir ==> forall|name: Seq<char>| #[trigger]
            inode->entries.contains_key(name) ==> inode->entries[name] < t.next,
    ensures
        t.put(inode).sound(),
        t.extended_by(t.put(inode)),
{
    let p = t.put(inode);
    assert forall|id: u64, name: Seq<char>|
        #![trigger p.inodes[id]->entries[name]]
        p.inodes.contains_key(id) && p.inodes[id] is Dir && p.inodes[id]->entries.contains_key(
            name,
        ) implies p.inodes[id]->entries[name] < id by {
        if id != t.next {
            assert(t.inodes[id]->entries[name] < id);
        }
    }
}

/// Rebuilding a chain changes no inode and keeps the table sound; it takes at
/// most two ids for each component.
pub proof fn law_graft_is_copy_on_write(
    t: Tree,
    dir: u64,
    comps: Seq<Seq<char>>,
    leaf: Option<u64>,
    now: i64,
)
    requires
        t.sound(),
        leaf is Some ==> leaf.unwrap() < t.next,
        t.next + 2 * comps.len() <= u64::MAX,
    ensures
        graft(t, dir, comps, leaf, now).0.sound(),
        t.extended_by(graft(t, dir, comps, leaf, now).0),
        graft(t, dir, comps, leaf, now).0.next <= t.next + 2 * comps.len(),
        comps.len() > 0 && graft(t, dir, comps, leaf, now).1 is Ok ==> {
            let (t2, r) = graft(t, dir, comps, leaf, now);
            &&& t.next <= r->Ok_0 < t2.next
            &&& t2.inodes.contains_key(r->Ok_0)
            &&& t2.inodes[r->Ok_0] is Dir
        },
    decreases comps.len(),
{
    if comps.len() > 0 && t.inodes.contains_key(dir) {
        match t.inodes[dir] {
            InodeModel::Dir { entries, .. } => {
                let name = comps[0];
                assert forall|n: Seq<char>| #[trigger] entries.contains_key(n) implies entries[n]
                    < t.next by {
                    assert(t.inodes[dir]->entries[n] < dir);
                }
                if comps.len() == 1 {
                    match leaf {
                        Some(id) => {
                            lemma_put_extends(
                                t,
                                InodeModel::Dir { entries: entries.insert(name, id), mtime: now },
                            );
                        },
                        None => {
                            if entries.contains_key(name) {
                                lemma_put_extends(
                                    t,
                                    InodeModel::Dir { entries: entries.remove(name), mtime: now },
                                );
                            }
                        },
                    }
                } else {
                    let (t1, child) = if entries.contains_key(name) {
                        (t, entries[name])
                    } else {
                        (t.put(empty_dir(now)), t.next as u64)
                    };
                    lemma_put_extends(t, empty_dir(now));
                    law_graft_is_copy_on_write(t1, child, comps.drop_first(), leaf, now);
                    let (t2, below) = graft(t1, child, comps.drop_first(), leaf, now);
                    lemma_extended_transitive(t, t1, t2);
                    if below is Ok {
                        let changed = InodeModel::Dir {
                            entries: entries.insert(name, below->Ok_0),
                            mtime: now,
                        };
                        lemma_put_extends(t2, changed);
                        lemma_extended_transitive(t, t2, t2.put(changed));
                    }
                }
            },
            InodeModel::File { .. } => {},
        }
    }
}

/// Every component of `comps` but the last is missing or a directory, from
/// the directory `dir` on.
pub open spec fn open_to(inodes: Map<u64, InodeModel>, dir: u64, comps: Seq<Seq<char>>) -> bool
    decreases comps.len(),
{
    &&& comps.len() > 0
    &&& inodes.contains_key(dir)
    &&& inodes[dir] is Dir
    &&& comps.len() == 1 || !inodes[dir]->entries.contains_key(comps[0]) || open_to(
        inodes,
        inodes[dir]->entries[comps[0]],
        comps.drop_first(),
    )
}

/// A path can be set exactly if nothing on the way to it is a file.
pub proof fn law_set_succeeds_on_open_paths(
    t: Tree,
    dir: u64,
    comps: Seq<Seq<char>>,
    leaf: u64,
    now: i64,
)
    requires
        t.sound(),
        comps.len() > 0,
        leaf < t.next,
        t.next + 2 * comps.len() <= u64::MAX,
    ensures
        graft(t, dir, comps, Some(leaf), now).1 is Ok <==> open_to(t.inodes, dir, comps),
    decreases comps.len(),
{
    if t.inodes.contains_key(dir) && t.inodes[dir] is Dir && comps.len() > 1 {
        let entries = t.inodes[dir]->entries;
        let rest = comps.drop_first();
        if entries.contains_key(comps[0]) {
            law_set_succeeds_on_open_paths(t, entries[comps[0]], rest, leaf, now);
        } else {
            let t1 = t.put(empty_dir(now));
            lemma_put_extends(t, empty_dir(now));
            law_set_succeeds_on_open_paths(t1, t.next as u64, rest, leaf, now);
            assert(open_to(t1.inodes, t.next as u64, rest));
        }
    }
}

/// Once a path is set, it and everything below it lead to what was put there.
pub proof fn law_set_path_leads_to_leaf(
    t: Tree,
    dir: u64,
    comps: Seq<Seq<char>>,
    leaf: u64,
    now: i64,
    rest: Seq<Seq<char>>,
)
    requires
        t.sound(),
        comps.len() > 0,
        leaf < t.next,
        t.next + 2 * comps.len() <= u64::MAX,
        graft(t, dir, comps, Some(leaf), now).1 is Ok,
    ensures
        ({
            let (t2, r) = graft(t, dir, comps, Some(leaf), now);
            resolve(t2.inodes, r->Ok_0, comps + rest) == resolve(t2.inodes, leaf, rest)
        }),
    decreases comps.len(),
{
    let (t2, r) = graft(t, dir, comps, Some(leaf), now);
    let root = r->Ok_0;
    let entries = t.inodes[dir]->entries;
    let path = comps + rest;
    assert(path[0] == comps[0]);
    if comps.len() == 1 {
        assert(path.drop_first() =~= rest);
        assert(t2.inodes[root]->entries[comps[0]] == leaf);
    } else {
        let (t1, child) = if entries.contains_key(comps[0]) {
            (t, entries[comps[0]])
        } else {
            (t.put(empty_dir(now)), t.next as u64)
        };
        lemma_put_extends(t, empty_dir(now));
        let below = comps.drop_first();
        law_set_path_leads_to_leaf(t1, child, below, leaf, now, rest);
        law_graft_is_copy_on_write(t1, child, below, Some(leaf), now);
        let (t3, b) = graft(t1, child, below, Some(leaf), now);
        lemma_extended_transitive(t, t1, t3);
        let changed = InodeModel::Dir { entries: entries.insert(comps[0], b->Ok_0), mtime: now };
        assert forall|n: Seq<char>| #[trigger] entries.contains_key(n) implies entries[n]
            < t.next by {
            assert(t.inodes[dir]->entries[n] < dir);
        }
        lemma_put_extends(t3, changed);
        assert(path.drop_first() =~= below + rest);
        law_old_paths_never_change(t3, t2, b->Ok_0, below + rest);
        law_old_paths_never_change(t3, t2, leaf, rest);
    }
}

/// A path can be taken out exactly if it leads somewhere; afterwards it leads
/// nowhere.
pub proof fn law_remove_path(t: Tree, dir: u64, comps: Seq<Seq<char>>, now: i64)
    requires
        t.sound(),
        comps.len() > 0,
        t.next + 2 * comps.len() <= u64::MAX,
    ensures
        graft(t, dir, comps, None, now).1 is Ok <==> resolve(t.inodes, dir, comps) is Ok,
        graft(t, dir, comps, None, now).1 is Ok ==> {
            let (t2, r) = graft(t, dir, comps, None, now);
            resolve(t2.inodes, r->Ok_0, comps) == Err::<u64, Fault>(
                Fault::NoSuchComponent(comps.last()),
            )
        },
    decreases comps.len(),
{
    let (t2, r) = graft(t, dir, comps, None, now);
    if t.inodes.contains_key(dir) && t.inodes[dir] is Dir {
        let entries = t.inodes[dir]->entries;
        let below = comps.drop_first();
        if comps.len() == 1 {
            if entries.contains_key(comps[0]) {
                assert(resolve(t.inodes, entries[comps[0]], below) is Ok);
            }
        } else {
            let (t1, child) = if entries.contains_key(comps[0]) {
                (t, entries[comps[0]])
            } else {
                (t.put(empty_dir(now)), t.next as u64)
            };
            lemma_put_extends(t, empty_dir(now));
            law_remove_path(t1, child, below, now);
            law_graft_is_copy_on_write(t1, child, below, None, now);
            let (t3, b) = graft(t1, child, below, None, now);
            if b is Ok {
                lemma_extended_transitive(t, t1, t3);
                let changed = InodeModel::Dir {
                    entries: entries.insert(comps[0], b->Ok_0),
                    mtime: now,
                };
                assert forall|n: Seq<char>| #[trigger] entries.contains_key(n) implies entries[n]
                    < t.next by {
                    assert(t.inodes[dir]->entries[n] < dir);
                }
                lemma_put_extends(t3, changed);
                law_old_paths_never_change(t3, t2, b->Ok_0, below);
                assert(below.last() == comps.last());
            }
        }
    }
}

/// Neither path leads through the other.
pub open spec fn diverges(a: Seq<Seq<char>>, b: Seq<Seq<char>>) -> bool
    decreases a.len(),
{
    a.len() > 0 && b.len() > 0 && (a[0] != b[0] || diverges(a.drop_first(), b.drop_first()))
}

/// Setting or taking out a path leaves every diverging path as it was.
pub proof fn law_diverging_paths_unchanged(
    t: Tree,
    dir: u64,
    comps: Seq<Seq<char>>,
    leaf: Option<u64>,
    now: i64,
    q: Seq<Seq<char>>,
    x: u64,
)
    requires
        t.sound(),
        diverges(q, comps),
        leaf is Some ==> leaf.unwrap() < t.next,
        t.next + 2 * comps.len() <= u64::MAX,
        graft(t, dir, comps, leaf, now).1 is Ok,
    ensures
        ({
            let (t2, r) = graft(t, dir, comps, leaf, now);
            resolve(t2.inodes, r->Ok_0, q) == Ok::<u64, Fault>(x) <==> resolve(t.inodes, dir, q)
                == Ok::<u64, Fault>(x)
        }),
    decreases comps.len(),
{
    let (t2, r) = graft(t, dir, comps, leaf, now);
    let root = r->Ok_0;
    let entries = t.inodes[dir]->entries;
    law_graft_is_copy_on_write(t, dir, comps, leaf, now);
    assert forall|n: Seq<char>| #[trigger] entries.contains_key(n) implies entries[n] < t.next by {
        assert(t.inodes[dir]->entries[n] < dir);
    }
    let rest = q.drop_first();
    if q[0] != comps[0] {
        let after = t2.inodes[root]->entries;
        assert(after.contains_key(q[0]) == entries.contains_key(q[0]));
        if entries.contains_key(q[0]) {
            assert(after[q[0]] == entries[q[0]]);
            law_old_paths_never_change(t, t2, entries[q[0]], rest);
        }
    } else {
        let below = comps.drop_first();
        reveal_with_fuel(diverges, 2);
        assert(diverges(rest, below));
        let (t1, child) = if entries.contains_key(comps[0]) {
            (t, entries[comps[0]])
        } else {
            (t.put(empty_dir(now)), t.next as u64)
        };
        lemma_put_extends(t, empty_dir(now));
        law_diverging_paths_unchanged(t1, child, below, leaf, now, rest, x);
        law_graft_is_copy_on_write(t1, child, below, leaf, now);
        let (t3, b) = graft(t1, child, below, leaf, now);
        lemma_extended_transitive(t, t1, t3);
        let changed = InodeModel::Dir { entries: entries.insert(comps[0], b->Ok_0), mtime: now };
        lemma_put_extends(t3, changed);
        law_old_paths_never_change(t3, t2, b->Ok_0, rest);
        assert(resolve(t2.inodes, root, q) == resolve(t2.inodes, b->Ok_0, rest));
        if !entries.contains_key(comps[0]) {
            assert(t1.inodes[child] == empty_dir(now));
            assert(resolve(t1.inodes, child, rest) == Err::<u64, Fault>(
                Fault::NoSuchComponent(rest[0]),
            ));
        }
    }
}

/// The entries of a directory in ascending order of their names.
pub open spec fn dir_entries(entries: Map<Seq<char>, u64>) -> Seq<(Seq<char>, u64)> {
    entries_of::<String, u64>(entries)
}

/// The ids of the entries, in that order.
pub open spec fn dir_children(entries: Map<Seq<char>, u64>) -> Seq<u64> {
    Seq::new(dir_entries(entries).len(), |i: int| dir_entries(entries)[i].1)
}

/// The entries of every directory can be listed in ascending order.
pub open spec fn listed(inodes: Map<u64, InodeModel>) -> bool {
    forall|d: u64| #[trigger]
        inodes.contains_key(d) && inodes[d] is Dir ==> {
            &&& ascending::<String, u64>(dir_entries(inodes[d]->entries))
            &&& map_of(dir_entries(inodes[d]->entries)) == inodes[d]->entries
        }
}

/// The inodes at and below `id`, each directory before its entries, or the first
/// failure on the way; `None` where that goes deeper than `depth`.
pub open spec fn walk_within(inodes: Map<u64, InodeModel>, id: u64, depth: nat) -> Option<
    Result<Seq<InodeModel>, Fault>,
>
    decreases depth, 0nat,
{
    if depth == 0 {
        None
    } else if !inodes.contains_key(id) {
        Some(Err(Fault::DanglingInode(id)))
    } else {
        match inodes[id] {
            InodeModel::File { .. } => Some(Ok(seq![inodes[id]])),
            InodeModel::Dir { entries, .. } => match walk_all_within(
                inodes,
                dir_children(entries),
                dir_children(entries).len(),
                (depth - 1) as nat,
            ) {
                None => None,
                Some(Err(e)) => Some(Err(e)),
                Some(Ok(v)) => Some(Ok(seq![inodes[id]] + v)),
            },
        }
    }
}

/// The same for the first `n` of the ids, up to the first failure.
pub open spec fn walk_all_within(
    inodes: Map<u64, InodeModel>,
    ids: Seq<u64>,
    n: nat,
    depth: nat,
) -> Option<Result<Seq<InodeModel>, Fault>>
    decreases depth, n + 1,
{
    if n == 0 {
        Some(Ok(Seq::empty()))
    } else {
        match walk_all_within(inodes, ids, (n - 1) as nat, depth) {
            None => None,
            Some(Err(e)) => Some(Err(e)),
            Some(Ok(v)) => match walk_within(inodes, ids[n - 1], depth) {
                None => None,
                Some(Err(e)) => Some(Err(e)),
                Some(Ok(w)) => Some(Ok(v + w)),
            },
        }
    }
}

/// A walk from `id` comes to an end: no directory is met again below itself
/// before something else stops the walk.
pub open spec fn ends(inodes: Map<u64, InodeModel>, id: u64) -> bool {
    exists|depth: nat| #[trigger] walk_within(inodes, id, depth) is Some
}

/// The inodes at and below `id`, each directory before its entries, if a walk
/// [ends](ends).
pub open spec fn visited(inodes: Map<u64, InodeModel>, id: u64) -> Result<Seq<InodeModel>, Fault> {
    let depth = choose|depth: nat| #[trigger] walk_within(inodes, id, depth) is Some;
    walk_within(inodes, id, depth).unwrap()
}

/// The inodes at and below the first `n` of the ids.
pub open spec fn visited_all(inodes: Map<u64, InodeModel>, ids: Seq<u64>, n: nat) -> Result<
    Seq<InodeModel>,
    Fault,
>
    decreases n,
{
    if n == 0 {
        Ok(Seq::empty())
    } else {
        match visited_all(inodes, ids, (n - 1) as nat) {
            Err(e) => Err(e),
            Ok(v) => match visited(inodes, ids[n - 1]) {
                Err(e) => Err(e),
                Ok(w) => Ok(v + w),
            },
        }
    }
}

/// The walks from the first `n` of the ids come to an end, up to one that
/// fails.
pub open spec fn ends_all(inodes: Map<u64, InodeModel>, ids: Seq<u64>, n: nat) -> bool
    decreases n,
{
    n == 0 || (ends_all(inodes, ids, (n - 1) as nat) && (visited_all(
        inodes,
        ids,
        (n - 1) as nat,
    ) is Ok ==> ends(inodes, ids[n - 1])))
}

/// A walk that ends within a depth is the same within a larger one.
pub proof fn lemma_walk_deeper(inodes: Map<u64, InodeModel>, id: u64, d: nat, e: nat)
    requires
        d <= e,
        walk_within(inodes, id, d) is Some,
    ensures
        walk_within(inodes, id, e) == walk_within(inodes, id, d),
    decreases d, 0nat,
{
    if inodes.contains_key(id) && inodes[id] is Dir {
        let kids = dir_children(inodes[id]->entries);
        lemma_walk_all_deeper(inodes, kids, kids.len(), (d - 1) as nat, (e - 1) as nat);
    }
}

proof fn lemma_walk_all_deeper(
    inodes: Map<u64, InodeModel>,
    ids: Seq<u64>,
    n: nat,
    d: nat,
    e: nat,
)
    requires
        d <= e,
        walk_all_within(inodes, ids, n, d) is Some,
    ensures
        walk_all_within(inodes, ids, n, e) == walk_all_within(inodes, ids, n, d),
    decreases d, n + 1,
{
    if n > 0 {
        lemma_walk_all_deeper(inodes, ids, (n - 1) as nat, d, e);
        if walk_all_within(inodes, ids, (n - 1) as nat, d).unwrap() is Ok {
            lemma_walk_deeper(inodes, ids[n - 1], d, e);
        }
    }
}

/// A walk that ends within a depth is the walk.
pub proof fn lemma_visited_is(inodes: Map<u64, InodeModel>, id: u64, d: nat)
    requires
        walk_within(inodes, id, d) is Some,
    ensures
        ends(inodes, id),
        visited(inodes, id) == walk_within(inodes, id, d).unwrap(),
{
    let c = choose|depth: nat| #[trigger] walk_within(inodes, id, depth) is Some;
    if c <= d {
        lemma_walk_deeper(inodes, id, c, d);
    } else {
        lemma_walk_deeper(inodes, id, d, c);
    }
}

pub proof fn lemma_visited_all_is(inodes: Map<u64, InodeModel>, ids: Seq<u64>, n: nat, d: nat)
    requires
        walk_all_within(inodes, ids, n, d) is Some,
    ensures
        ends_all(inodes, ids, n),
        visited_all(inodes, ids, n) == walk_all_within(inodes, ids, n, d).unwrap(),
    decreases n,
{
    if n > 0 {
        lemma_visited_all_is(inodes, ids, (n - 1) as nat, d);
        if visited_all(inodes, ids, (n - 1) as nat) is Ok {
            lemma_visited_is(inodes, ids[n - 1], d);
        }
    }
}

/// What a walk visits: the inode and, below a directory, what its entries lead
/// to.
pub proof fn lemma_visited(inodes: Map<u64, InodeModel>, id: u64)
    requires
        ends(inodes, id),
    ensures
        visited(inodes, id) == if !inodes.contains_key(id) {
            Err::<Seq<InodeModel>, Fault>(Fault::DanglingInode(id))
        } else {
            match inodes[id] {
                InodeModel::File { .. } => Ok(seq![inodes[id]]),
                InodeModel::Dir { entries, .. } => match visited_all(
                    inodes,
                    dir_children(entries),
                    dir_children(entries).len(),
                ) {
                    Ok(v) => Ok(seq![inodes[id]] + v),
                    Err(e) => Err(e),
                },
            }
        },
        inodes.contains_key(id) && inodes[id] is Dir ==> ends_all(
            inodes,
            dir_children(inodes[id]->entries),
            dir_children(inodes[id]->entries).len(),
        ),
{
    let d = choose|depth: nat| #[trigger] walk_within(inodes, id, depth) is Some;
    if inodes.contains_key(id) && inodes[id] is Dir {
        let kids = dir_children(inodes[id]->entries);
        lemma_visited_all_is(inodes, kids, kids.len(), (d - 1) as nat);
    }
}

/// In a sound tree every walk ends.
pub proof fn law_sound_walks_end(t: Tree, id: u64)
    requires
        t.sound(),
        listed(t.inodes),
    ensures
        ends(t.inodes, id),
        walk_within(t.inodes, id, id as nat + 1) is Some,
    decreases id,
{
    if t.inodes.contains_key(id) && t.inodes[id] is Dir {
        let entries = t.inodes[id]->entries;
        let all = dir_entries(entries);
        let kids = dir_children(entries);
        assert forall|i: int| 0 <= i < kids.len() implies walk_within(
            t.inodes,
            #[trigger] kids[i],
            id as nat,
        ) is Some by {
            lemma_map_of_entry::<String, u64>(all, i);
            assert(t.inodes[id]->entries[all[i].0] < id);
            law_sound_walks_end(t, kids[i]);
            lemma_walk_deeper(t.inodes, kids[i], kids[i] as nat + 1, id as nat);
        }
        lemma_all_walks_end(t.inodes, kids, kids.len(), id as nat);
    }
    assert(walk_within(t.inodes, id, id as nat + 1) is Some);
}

proof fn lemma_all_walks_end(inodes: Map<u64, InodeModel>, ids: Seq<u64>, n: nat, d: nat)
    requires
        n <= ids.len(),
        forall|i: int| 0 <= i < ids.len() ==> walk_within(inodes, #[trigger] ids[i], d) is Some,
    ensures
        walk_all_within(inodes, ids, n, d) is Some,
    decreases n,
{
    if n > 0 {
        lemma_all_walks_end(inodes, ids, (n - 1) as nat, d);
        assert(walk_within(inodes, ids[n - 1], d) is Some);
    }
}

/// In a sound tree the walks from all ids end.
pub proof fn lemma_sound_walks_all_end(t: Tree, ids: Seq<u64>, n: nat)
    requires
        t.sound(),
        listed(t.inodes),
        n <= ids.len(),
    ensures
        ends_all(t.inodes, ids, n),
    decreases n,
{
    if n > 0 {
        lemma_sound_walks_all_end(t, ids, (n - 1) as nat);
        law_sound_walks_end(t, ids[n - 1]);
    }
}

/// Where one more level makes the walks from the first ids end, it does for one
/// of them.
proof fn lemma_deepest(inodes: Map<u64, InodeModel>, ids: Seq<u64>, n: nat, d: nat) -> (i: int)
    requires
        n <= ids.len(),
        walk_all_within(inodes, ids, n, d) is None,
        walk_all_within(inodes, ids, n, d + 1) is Some,
    ensures
        0 <= i < n,
        walk_within(inodes, ids[i], d) is None,
        walk_within(inodes, ids[i], d + 1) is Some,
    decreases n,
{
    if walk_all_within(inodes, ids, (n - 1) as nat, d) is None {
        lemma_deepest(inodes, ids, (n - 1) as nat, d)
    } else {
        lemma_walk_all_deeper(inodes, ids, (n - 1) as nat, d, d + 1);
        n - 1
    }
}

/// A walk that needs more than `d` levels meets `d` different inodes.
proof fn lemma_deep_walk_meets_many(inodes: Map<u64, InodeModel>, id: u64, d: nat) -> (s: Set<u64>)
    requires
        walk_within(inodes, id, d) is None,
        walk_within(inodes, id, d + 1) is Some,
    ensures
        s.finite(),
        s.len() == d,
        s.subset_of(inodes.dom()),
        forall|x: u64| #[trigger] s.contains(x) ==> walk_within(inodes, x, d + 1) is Some,
    decreases d,
{
    if d == 0 {
        Set::empty()
    } else {
        let kids = dir_children(inodes[id]->entries);
        let i = lemma_deepest(inodes, kids, kids.len(), (d - 1) as nat);
        let below = lemma_deep_walk_meets_many(inodes, kids[i], (d - 1) as nat);
        let s = below.insert(id);
        assert forall|x: u64| #[trigger] s.contains(x) implies walk_within(inodes, x, d + 1) is Some by {
            if x != id {
                assert(below.contains(x));
                lemma_walk_deeper(inodes, x, d, d + 1);
            }
        }
        assert(!below.contains(id));
        s
    }
}

/// A walk that ends needs no more levels than there are inodes, and one.
pub proof fn law_walk_depth(inodes: Map<u64, InodeModel>, id: u64, d: nat)
    requires
        inodes.dom().finite(),
        ends(inodes, id),
        inodes.dom().len() <= d,
    ensures
        walk_within(inodes, id, d + 1) is Some,
{
    let e = choose|depth: nat| #[trigger] walk_within(inodes, id, depth) is Some;
    lemma_least_depth(inodes, id, e, d);
}

proof fn lemma_least_depth(inodes: Map<u64, InodeModel>, id: u64, e: nat, d: nat)
    requires
        inodes.dom().finite(),
        walk_within(inodes, id, e) is Some,
        inodes.dom().len() <= d,
    ensures
        walk_within(inodes, id, d + 1) is Some,
    decreases e,
{
    let below = (e - 1) as nat;
    if walk_within(inodes, id, below) is Some {
        lemma_least_depth(inodes, id, below, d);
    } else {
        let s = lemma_deep_walk_meets_many(inodes, id, below);
        vstd::set_lib::lemma_len_subset(s, inodes.dom());
        lemma_walk_deeper(inodes, id, e, d + 1);
    }
}

/// A failure among the first ids is the failure of all of them.
pub proof fn lemma_visited_all_fails(inodes: Map<u64, InodeModel>, ids: Seq<u64>, m: nat, n: nat)
    requires
        m <= n,
        visited_all(inodes, ids, m) is Err,
    ensures
        visited_all(inodes, ids, n) == visited_all(inodes, ids, m),
    decreases n,
{
    if m < n {
        lemma_visited_all_fails(inodes, ids, m, (n - 1) as nat);
    }
}

/// Where all walks end, so do those from the first ids.
pub proof fn lemma_ends_all_part(inodes: Map<u64, InodeModel>, ids: Seq<u64>, m: nat, n: nat)
    requires
        m <= n,
        ends_all(inodes, ids, n),
    ensures
        ends_all(inodes, ids, m),
    decreases n,
{
    if m < n {
        lemma_ends_all_part(inodes, ids, m, (n - 1) as nat);
    }
}

/// What is visited for one of the ids is visited for all of them.
pub proof fn lemma_visited_all_contains(
    inodes: Map<u64, InodeModel>,
    ids: Seq<u64>,
    n: nat,
    i: int,
)
    requires
        0 <= i < n <= ids.len(),
        ends_all(inodes, ids, n),
        visited_all(inodes, ids, n) is Ok,
    ensures
        ends(inodes, ids[i]),
        visited(inodes, ids[i]) is Ok,
        forall|x: InodeModel| #[trigger]
            visited(inodes, ids[i])->Ok_0.contains(x) ==> visited_all(
                inodes,
                ids,
                n,
            )->Ok_0.contains(x),
    decreases n,
{
    let v = visited_all(inodes, ids, (n - 1) as nat)->Ok_0;
    let w = visited(inodes, ids[n - 1])->Ok_0;
    let all = visited_all(inodes, ids, n)->Ok_0;
    assert(all == v + w);
    if i < n - 1 {
        lemma_visited_all_contains(inodes, ids, (n - 1) as nat, i);
        assert forall|x: InodeModel| #[trigger] visited(inodes, ids[i])->Ok_0.contains(x) implies all.contains(
            x,
        ) by {
            let j = choose|j: int| 0 <= j < v.len() && v[j] == x;
            assert(all[j] == x);
        }
    } else {
        assert forall|x: InodeModel| #[trigger] visited(inodes, ids[i])->Ok_0.contains(x) implies all.contains(
            x,
        ) by {
            let j = choose|j: int| 0 <= j < w.len() && w[j] == x;
            assert(all[v.len() + j] == x);
        }
    }
}

/// A walk from an id visits the inode that any path from it leads to.
pub proof fn law_walk_visits_every_path(
    inodes: Map<u64, InodeModel>,
    id: u64,
    comps: Seq<Seq<char>>,
)
    requires
        ends(inodes, id),
        visited(inodes, id) is Ok,
        resolve(inodes, id, comps) is Ok,
        listed(inodes),
    ensures
        inodes.contains_key(resolve(inodes, id, comps)->Ok_0),
        visited(inodes, id)->Ok_0.contains(inodes[resolve(inodes, id, comps)->Ok_0]),
    decreases comps.len(),
{
    let seen = visited(inodes, id)->Ok_0;
    lemma_visited(inodes, id);
    if comps.len() == 0 {
        assert(seen[0] == inodes[id]);
    } else {
        let entries = inodes[id]->entries;
        let list = dir_entries(entries);
        assert(ascending::<String, u64>(list) && map_of(list) == entries);
        let i = lemma_map_of_key(list, comps[0]);
        lemma_map_of_entry::<String, u64>(list, i);
        let kids = dir_children(entries);
        assert(kids[i] == entries[comps[0]]);
        lemma_visited_all_contains(inodes, kids, kids.len(), i);
        law_walk_visits_every_path(inodes, kids[i], comps.drop_first());
        let x = inodes[resolve(inodes, id, comps)->Ok_0];
        let below = visited_all(inodes, kids, kids.len())->Ok_0;
        let j = choose|j: int| 0 <= j < below.len() && below[j] == x;
        assert(seen[j + 1] == x);
    }
}

/// A new inode whose entries lead to inodes leaves nothing dangling.
pub proof fn lemma_put_whole(t: Tree, inode: InodeModel)
    requires
        t.sound(),
        t.whole(),
        t.next < u64::MAX,
        inode is Dir ==> forall|n: Seq<char>| #[trigger]
            inode->entries.contains_key(n) ==> t.inodes.contains_key(inode->entries[n]),
    ensures
        t.put(inode).whole(),
{
    let later = t.put(inode);
    assert forall|id: u64, name: Seq<char>|
        #![trigger later.inodes[id]->entries[name]]
        later.inodes.contains_key(id) && later.inodes[id] is Dir
            && later.inodes[id]->entries.contains_key(name) implies later.inodes.contains_key(
        later.inodes[id]->entries[name],
    ) by {
        if id != t.next as u64 {
            assert(t.inodes.contains_key(t.inodes[id]->entries[name]));
        } else {
            assert(inode->entries.contains_key(name));
        }
    }
}

/// Rebuilding a directory chain leaves no entry that leads to no inode, whether
/// it succeeds or fails.
pub proof fn law_graft_leaves_nothing_dangling(
    t: Tree,
    dir: u64,
    comps: Seq<Seq<char>>,
    leaf: Option<u64>,
    now: i64,
)
    requires
        t.sound(),
        t.whole(),
        leaf is Some ==> t.inodes.contains_key(leaf.unwrap()),
        t.next + 2 * comps.len() <= u64::MAX,
    ensures
        graft(t, dir, comps, leaf, now).0.whole(),
    decreases comps.len(),
{
    if comps.len() > 0 && t.inodes.contains_key(dir) {
        match t.inodes[dir] {
            InodeModel::Dir { entries, .. } => {
                let name = comps[0];
                assert forall|n: Seq<char>| #[trigger] entries.contains_key(n) implies
                    t.inodes.contains_key(entries[n]) && entries[n] < t.next by {
                    assert(t.inodes.contains_key(t.inodes[dir]->entries[n]));
                }
                if comps.len() == 1 {
                    match leaf {
                        Some(id) => {
                            lemma_put_whole(
                                t,
                                InodeModel::Dir { entries: entries.insert(name, id), mtime: now },
                            );
                        },
                        None => {
                            if entries.contains_key(name) {
                                lemma_put_whole(
                                    t,
                                    InodeModel::Dir { entries: entries.remove(name), mtime: now },
                                );
                            }
                        },
                    }
                } else {
                    let (t1, child) = if entries.contains_key(name) {
                        (t, entries[name])
                    } else {
                        (t.put(empty_dir(now)), t.next as u64)
                    };
                    lemma_put_extends(t, empty_dir(now));
                    lemma_put_whole(t, empty_dir(now));
                    law_graft_leaves_nothing_dangling(t1, child, comps.drop_first(), leaf, now);
                    law_graft_is_copy_on_write(t1, child, comps.drop_first(), leaf, now);
                    let (t2, below) = graft(t1, child, comps.drop_first(), leaf, now);
                    lemma_extended_transitive(t, t1, t2);
                    if below is Ok {
                        let changed = InodeModel::Dir {
                            entries: entries.insert(name, below->Ok_0),
                            mtime: now,
                        };
                        assert forall|n: Seq<char>| #[trigger]
                            changed->entries.contains_key(n) implies t2.inodes.contains_key(
                            changed->entries[n],
                        ) by {
                            if n != name {
                                assert(entries.contains_key(n));
                                assert(t.inodes.contains_key(entries[n]));
                            }
                        }
                        lemma_put_whole(t2, changed);
                    }
                }
            },
            InodeModel::File { .. } => {},
        }
    }
}

/// Where a path leads with one more component.
pub proof fn lemma_resolve_push(
    inodes: Map<u64, InodeModel>,
    id: u64,
    comps: Seq<Seq<char>>,
    name: Seq<char>,
)
    ensures
        resolve(inodes, id, comps.push(name)) == match resolve(inodes, id, comps) {
            Err(e) => Err(e),
            Ok(d) => resolve(inodes, d, seq![name]),
        },
    decreases comps.len(),
{
    let longer = comps.push(name);
    if comps.len() == 0 {
        assert(longer =~= seq![name]);
    } else {
        assert(longer.drop_first() =~= comps.drop_first().push(name));
        if inodes.contains_key(id) && inodes[id] is Dir && inodes[id]->entries.contains_key(
            comps[0],
        ) {
            lemma_resolve_push(inodes, inodes[id]->entries[comps[0]], comps.drop_first(), name);
        }
    }
}

/// A path that leads somewhere leads through directories.
pub proof fn law_ancestors_are_directories(
    inodes: Map<u64, InodeModel>,
    id: u64,
    comps: Seq<Seq<char>>,
    n: int,
)
    requires
        resolve(inodes, id, comps) is Ok,
        0 <= n < comps.len(),
    ensures
        resolve(inodes, id, comps.take(n)) is Ok,
        inodes.contains_key(resolve(inodes, id, comps.take(n))->Ok_0),
        inodes[resolve(inodes, id, comps.take(n))->Ok_0] is Dir,
    decreases n,
{
    if n == 0 {
        assert(comps.take(0) =~= Seq::empty());
    } else {
        let next = inodes[id]->entries[comps[0]];
        assert(comps.take(n).drop_first() =~= comps.drop_first().take(n - 1));
        assert(comps.take(n)[0] == comps[0]);
        law_ancestors_are_directories(inodes, next, comps.drop_first(), n - 1);
    }
}

/// Where nothing dangles, a path that leads somewhere leads to an inode.
pub proof fn lemma_resolved_is_there(t: Tree, id: u64, comps: Seq<Seq<char>>)
    requires
        t.whole(),
        t.inodes.contains_key(id),
        resolve(t.inodes, id, comps) is Ok,
    ensures
        t.inodes.contains_key(resolve(t.inodes, id, comps)->Ok_0),
    decreases comps.len(),
{
    if comps.len() > 0 {
        let next = t.inodes[id]->entries[comps[0]];
        assert(t.inodes.contains_key(t.inodes[id]->entries[comps[0]]));
        lemma_resolved_is_there(t, next, comps.drop_first());
    }
}

/// Where nothing dangles, a walk succeeds.
pub proof fn law_walk_succeeds(t: Tree, id: u64)
    requires
        t.sound(),
        t.whole(),
        listed(t.inodes),
        t.inodes.contains_key(id),
    ensures
        ends(t.inodes, id),
        visited(t.inodes, id) is Ok,
    decreases id as nat + 1, 0nat,
{
    law_sound_walks_end(t, id);
    lemma_visited(t.inodes, id);
    if t.inodes[id] is Dir {
        let entries = t.inodes[id]->entries;
        let all = dir_entries(entries);
        let ids = dir_children(entries);
        assert forall|i: int| 0 <= i < ids.len() implies (#[trigger] ids[i]) < id
            && t.inodes.contains_key(ids[i]) by {
            lemma_map_of_entry::<String, u64>(all, i);
            assert(t.inodes[id]->entries[all[i].0] < id);
        }
        lemma_walk_all_succeeds(t, id, ids, ids.len());
    }
}

proof fn lemma_walk_all_succeeds(t: Tree, limit: u64, ids: Seq<u64>, n: nat)
    requires
        t.sound(),
        t.whole(),
        listed(t.inodes),
        n <= ids.len(),
        forall|i: int|
            0 <= i < ids.len() ==> (#[trigger] ids[i]) < limit && t.inodes.contains_key(ids[i]),
    ensures
        visited_all(t.inodes, ids, n) is Ok,
    decreases limit as nat, n,
{
    if n > 0 {
        lemma_walk_all_succeeds(t, limit, ids, (n - 1) as nat);
        assert(ids[n - 1] < limit);
        law_walk_succeeds(t, ids[n - 1]);
    }
}

/// Rebuilding a directory chain gives out at most two ids for each component.
pub proof fn lemma_graft_ids(
    t: Tree,
    dir: u64,
    comps: Seq<Seq<char>>,
    leaf: Option<u64>,
    now: i64,
)
    ensures
        t.next <= graft(t, dir, comps, leaf, now).0.next <= t.next + 2 * comps.len(),
    decreases comps.len(),
{
    if comps.len() > 1 && t.inodes.contains_key(dir) && t.inodes[dir] is Dir {
        let entries = t.inodes[dir]->entries;
        if entries.contains_key(comps[0]) {
            lemma_graft_ids(t, entries[comps[0]], comps.drop_first(), leaf, now);
        } else {
            lemma_graft_ids(t.put(empty_dir(now)), t.next as u64, comps.drop_first(), leaf, now);
        }
    }
}

} // verus!
