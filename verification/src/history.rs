//! What holds over sequences of operations on a filesystem.

use vstd::prelude::*;

use crate::blockstore::{
    bytes_at, law_store_indexes_every_block, law_store_keeps_cache_current,
    law_store_keeps_log_intact, law_stored_blocks_are_read_back,
};
use crate::fs::{blocks_of, chunks, components, FsModel};
use crate::fslaws::{
    content_read, law_mkdir_is_copy_on_write, law_remove_is_copy_on_write,
    law_rename_is_copy_on_write, law_rollback_is_copy_on_write, law_rollback_restores_the_snapshot,
    law_write_is_copy_on_write,
};
use crate::tree::{lemma_extended_transitive, listed, Fault};

verus! {

/// A call that changes a filesystem.
pub enum FsCall {
    Write { path: Seq<char>, data: Seq<u8>, now: i64 },
    MakeDir { path: Seq<char>, now: i64 },
    Remove { path: Seq<char>, now: i64 },
    Rename { from: Seq<char>, to: Seq<char>, now: i64 },
    Snapshot { name: Seq<char> },
    Rollback { name: Seq<char> },
}

impl FsCall {
    /// How many inode ids the call may take.
    pub open spec fn ids(self) -> nat {
        match self {
            FsCall::Write { path, .. } | FsCall::MakeDir { path, .. } => 2 * components(path).len()
                + 1,
            FsCall::Remove { path, .. } => 2 * components(path).len(),
            FsCall::Rename { from, to, .. } => 2 * (components(from).len() + components(to).len()),
            FsCall::Snapshot { .. } | FsCall::Rollback { .. } => 0,
        }
    }

    /// The content that the call stores in blocks.
    pub open spec fn blocks(self) -> Seq<Seq<u8>> {
        match self {
            FsCall::Write { path, data, .. } => if components(path).len() > 0 {
                blocks_of(data)
            } else {
                Seq::empty()
            },
            _ => Seq::empty(),
        }
    }
}

impl FsModel {
    /// The state after a call of the method of [`crate::fs::Filesystem`] that it
    /// stands for, whether it succeeds or fails.
    pub open spec fn after(self, call: FsCall) -> FsModel {
        match call {
            FsCall::Write { path, data, now } => self.written(path, data, now).0,
            FsCall::MakeDir { path, now } => self.made_dir(path, now).0,
            FsCall::Remove { path, now } => self.removed(path, now).0,
            FsCall::Rename { from, to, now } => self.renamed(from, to, now).0,
            FsCall::Snapshot { name } => FsModel {
                snapshots: self.snapshots.insert(name, self.state),
                ..self
            },
            FsCall::Rollback { name } => self.rolled_back(name).0,
        }
    }

    /// What the call appends to the log.
    pub open spec fn appended(self, call: FsCall) -> Seq<u8> {
        self.blocks.appended_all(call.blocks(), call.blocks().len() as int)
    }

    /// There are ids and room for a call, and no block of its content clashes
    /// with a stored block or with another one.
    pub open spec fn admits(self, log: Seq<u8>, call: FsCall) -> bool {
        &&& self.ids_left(call.ids())
        &&& log.len() + self.appended(call).len() <= u64::MAX
        &&& self.blocks.clash_free(log, call.blocks())
    }

    /// The state and the log after a sequence of calls.
    pub open spec fn played(self, log: Seq<u8>, calls: Seq<FsCall>) -> (FsModel, Seq<u8>)
        decreases calls.len(),
    {
        if calls.len() == 0 {
            (self, log)
        } else {
            let (m, l) = self.played(log, calls.drop_last());
            (m.after(calls.last()), l + m.appended(calls.last()))
        }
    }

    /// Each of the calls is admitted when its turn comes.
    pub open spec fn admits_all(self, log: Seq<u8>, calls: Seq<FsCall>) -> bool
        decreases calls.len(),
    {
        calls.len() == 0 || {
            let (m, l) = self.played(log, calls.drop_last());
            self.admits_all(log, calls.drop_last()) && m.admits(l, calls.last())
        }
    }

    /// The filesystem with its log: the inodes are sound, the log holds every
    /// stored block, and the cache agrees with it.
    pub open spec fn in_order(self, log: Seq<u8>) -> bool {
        &&& self.sound()
        &&& self.blocks.intact(log)
        &&& self.blocks.cache_current(log)
    }

    /// The blocks of the file that a path leads to are stored.
    pub open spec fn blocks_stored(self, path: Seq<char>) -> bool {
        self.inode_at(path) is Ok && self.inode_at(path)->Ok_0 is File ==> forall|i: int|
            0 <= i < self.inode_at(path)->Ok_0->blocks.len() ==> self.blocks.index.contains_key(
                #[trigger] self.inode_at(path)->Ok_0->blocks[i],
            )
    }

    /// `later` has every inode and every stored block as it was.
    pub open spec fn kept_in(self, log: Seq<u8>, later: FsModel, later_log: Seq<u8>) -> bool {
        &&& self.tree().extended_by(later.tree())
        &&& forall|k: Seq<u8>| #[trigger]
            self.blocks.index.contains_key(k) ==> later.blocks.index.contains_key(k) && bytes_at(
                later_log,
                later.blocks.index[k],
            ) == bytes_at(log, self.blocks.index[k])
    }
}

/// One call keeps the filesystem in order and every inode and block in it.
pub proof fn law_call_keeps_everything(m: FsModel, log: Seq<u8>, call: FsCall)
    requires
        m.in_order(log),
        m.admits(log, call),
    ensures
        m.after(call).in_order(log + m.appended(call)),
        m.kept_in(log, m.after(call), log + m.appended(call)),
        forall|x: Seq<char>|
            call != (FsCall::Snapshot { name: x }) ==> #[trigger] m.after(
                call,
            ).snapshots.contains_key(x) == m.snapshots.contains_key(x) && m.after(
                call,
            ).snapshots[x] == m.snapshots[x],
{
    let later = m.after(call);
    let b = call.blocks();
    let n = b.len() as int;
    let later_log = log + m.appended(call);
    match call {
        FsCall::Write { path, data, now } => {
            law_write_is_copy_on_write(m, path, data, now);
        },
        FsCall::MakeDir { path, now } => {
            law_mkdir_is_copy_on_write(m, path, now);
        },
        FsCall::Remove { path, now } => {
            law_remove_is_copy_on_write(m, path, now);
        },
        FsCall::Rename { from, to, now } => {
            law_rename_is_copy_on_write(m, from, to, now);
        },
        FsCall::Snapshot { name } => {
            assert(later.tree() == m.tree());
        },
        FsCall::Rollback { name } => {
            law_rollback_is_copy_on_write(m, name);
        },
    }
    assert(later.blocks == m.blocks.stored_all(b, n));
    assert forall|i: int| 0 <= i < n implies (#[trigger] b[i]).len() <= u32::MAX by {
        let data = call->data;
        assert(b[i] == chunks(data)[i]);
    }
    law_store_keeps_log_intact(m.blocks, log, b, n);
    law_store_keeps_cache_current(m.blocks, log, b);
    law_store_indexes_every_block(m.blocks, b, n);
    assert forall|k: Seq<u8>| #[trigger]
        m.blocks.index.contains_key(k) implies later.blocks.index.contains_key(k) && bytes_at(
        later_log,
        later.blocks.index[k],
    ) == bytes_at(log, m.blocks.index[k]) by {
        assert(m.blocks.index.submap_of(later.blocks.index));
        assert(later.blocks.index.contains_key(k));
        assert(later.blocks.index[k] == m.blocks.index[k]);
        assert(bytes_at(later_log, m.blocks.index[k]) =~= bytes_at(log, m.blocks.index[k]));
    }
}

/// A sequence of calls keeps the filesystem in order, every inode and every
/// block in it, and the snapshots that it does not take again.
pub proof fn law_calls_keep_everything(m: FsModel, log: Seq<u8>, calls: Seq<FsCall>, x: Seq<char>)
    requires
        m.in_order(log),
        m.admits_all(log, calls),
        forall|i: int|
            0 <= i < calls.len() ==> (#[trigger] calls[i]) != (FsCall::Snapshot { name: x }),
    ensures
        m.played(log, calls).0.in_order(m.played(log, calls).1),
        m.kept_in(log, m.played(log, calls).0, m.played(log, calls).1),
        m.played(log, calls).0.snapshots.contains_key(x) == m.snapshots.contains_key(x),
        m.played(log, calls).0.snapshots[x] == m.snapshots[x],
    decreases calls.len(),
{
    if calls.len() > 0 {
        let before = calls.drop_last();
        assert forall|i: int| 0 <= i < before.len() implies (#[trigger] before[i]) != (
        FsCall::Snapshot { name: x }) by {
            assert(before[i] == calls[i]);
        }
        law_calls_keep_everything(m, log, before, x);
        let (mid, mid_log) = m.played(log, before);
        let (later, later_log) = m.played(log, calls);
        assert(calls.last() == calls[calls.len() - 1]);
        law_call_keeps_everything(mid, mid_log, calls.last());
        lemma_extended_transitive(m.tree(), mid.tree(), later.tree());
        assert(later.snapshots.contains_key(x) == mid.snapshots.contains_key(x));
    }
}

/// What was stored in a filesystem and all inodes are there, so a file that a
/// path leads to as before has the content that it had.
proof fn lemma_content_kept(
    m: FsModel,
    log: Seq<u8>,
    later: FsModel,
    later_log: Seq<u8>,
    path: Seq<char>,
)
    requires
        m.in_order(log),
        later.in_order(later_log),
        m.kept_in(log, later, later_log),
        later.inode_at(path) == m.inode_at(path),
        m.blocks_stored(path),
    ensures
        content_read(later, path, later_log) == content_read(m, path, log),
{
    if m.inode_at(path) is Ok && m.inode_at(path)->Ok_0 is File {
        let wanted = m.inode_at(path)->Ok_0->blocks;
        let bytes = Seq::new(wanted.len(), |i: int| bytes_at(log, m.blocks.index[wanted[i]]));
        assert forall|i: int| 0 <= i < wanted.len() implies m.blocks.answers(
            log,
            wanted[i],
            #[trigger] bytes[i],
        ) && later.blocks.answers(later_log, wanted[i], bytes[i]) by {
            assert(m.blocks.index.contains_key(wanted[i]));
            assert(later.blocks.index.contains_key(wanted[i]));
        }
        law_stored_blocks_are_read_back(m.blocks, log, wanted, bytes, wanted.len() as int);
        law_stored_blocks_are_read_back(
            later.blocks,
            later_log,
            wanted,
            bytes,
            wanted.len() as int,
        );
    }
}

/// A rollback brings back what a snapshot was taken of, whatever calls came in
/// between: every path leads where it led, to the same inode, with the same
/// listing and, if its blocks were stored, the same content, from the cache or
/// from the log. The snapshots stay, and one transaction is published. A
/// rollback to a name without a snapshot fails and changes nothing.
pub proof fn law_rollback_undoes_calls(
    m: FsModel,
    log: Seq<u8>,
    name: Seq<char>,
    calls: Seq<FsCall>,
    path: Seq<char>,
    other: Seq<char>,
)
    requires
        m.in_order(log),
        listed(m.inodes),
        m.after(FsCall::Snapshot { name }).admits_all(log, calls),
        forall|i: int|
            0 <= i < calls.len() ==> (#[trigger] calls[i]) != (FsCall::Snapshot { name }),
        m.after(FsCall::Snapshot { name }).played(log, calls).0.state.txg < u64::MAX,
    ensures
        ({
            let (later, later_log) = m.after(FsCall::Snapshot { name }).played(log, calls);
            let (back, r) = later.rolled_back(name);
            &&& r is Ok
            &&& back.lookup(path) == m.lookup(path)
            &&& back.inode_at(path) == m.inode_at(path)
            &&& back.listing(path) == m.listing(path)
            &&& m.blocks_stored(path) ==> content_read(back, path, later_log) == content_read(
                m,
                path,
                log,
            )
            &&& back.snapshots == later.snapshots
            &&& back.state.txg == later.state.txg + 1
            &&& back.in_order(later_log)
            &&& !later.snapshots.contains_key(other) ==> later.rolled_back(other) == (
                later,
                Err::<(), Fault>(Fault::NoSuchSnapshot(other)),
            )
        }),
{
    let taken = m.after(FsCall::Snapshot { name });
    assert(taken.tree() == m.tree());
    law_calls_keep_everything(taken, log, calls, name);
    let (later, later_log) = taken.played(log, calls);
    let back = later.rolled_back(name).0;
    law_rollback_restores_the_snapshot(m, later, name, path);
    law_rollback_is_copy_on_write(later, name);
    if m.blocks_stored(path) {
        lemma_extended_transitive(m.tree(), later.tree(), back.tree());
        lemma_content_kept(m, log, back, later_log, path);
    }
}

} // verus!
