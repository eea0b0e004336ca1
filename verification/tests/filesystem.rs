//! The copy-on-write volume, driven with its log held in memory.
use neuralfs::blockstore::{hash_bytes, Extent, BLOCK_SIZE};
use neuralfs::fs::{FileData, Filesystem, FsError, Saved, Step, INLINE_MAX};
use neuralfs::inode::{Inode, SuperBlock};
use neuralfs::sorted::SortedMap;
use std::sync::Arc;

const NOW: i64 = 1_700_000_000;

struct Volume {
    fs: Filesystem,
    log: Vec<u8>,
}

impl Volume {
    fn new() -> Volume {
        Volume {
            fs: Filesystem::open(None, SortedMap::new(), 0, NOW).unwrap(),
            log: Vec::new(),
        }
    }

    fn write_file(&mut self, path: &str, data: &[u8]) -> Result<(), FsError> {
        let data = FileData::new(data);
        assert!(self.fs.can_store(&data));
        let (at, tail) = self.fs.log_tail(&data);
        let r = self.fs.write_file(path, &data, NOW);
        // Blocks are stored before the tree is changed, except for the root.
        if r != Err(FsError::WriteRoot) {
            assert_eq!(at, self.log.len() as u64);
            self.log.extend_from_slice(&tail);
        }
        r
    }

    fn bytes(&self, e: Extent) -> Vec<u8> {
        let from = e.offset as usize;
        self.log[from..from + e.len as usize].to_vec()
    }

    fn read_file(&mut self, path: &str) -> Result<Vec<u8>, FsError> {
        let mut job = self.fs.read_file(path)?;
        loop {
            match self.fs.fetch(&mut job)? {
                Step::Taken => {}
                Step::Read(e) => {
                    let buf = self.bytes(e);
                    self.fs.supply(&mut job, buf)?;
                }
                Step::Complete => return Ok(job.finish()),
            }
        }
    }

    fn scrub(&self) -> (usize, Vec<String>) {
        let mut s = self.fs.scrub();
        while let Some(e) = s.next_read() {
            s.check(Some(self.bytes(e)));
        }
        s.finish()
    }

    fn gc(&mut self) -> (usize, usize, u64) {
        let live = self.fs.gc_live().unwrap();
        let mut log = Vec::new();
        for (hash, e) in self.fs.gc_reads(&live) {
            let record = Filesystem::gc_copy(&hash, &self.bytes(e)).unwrap();
            log.extend_from_slice(&record);
        }
        let s = self.fs.gc(&live);
        self.log = log;
        (s.kept_blocks, s.dropped_blocks, s.bytes_reclaimed)
    }

    fn reopen(self) -> Volume {
        let state = self.fs.state();
        let mut inodes = SortedMap::new();
        for id in 0..state.next_inode {
            if let Some(inode) = self.fs.inode(id) {
                inodes.insert(id, inode);
            }
        }
        let mut snapshots = SortedMap::new();
        for (name, _) in self.fs.list_snapshots() {
            let st = self.fs.snapshot_state(&name).unwrap();
            snapshots.insert(name, st);
        }
        let mut index = SortedMap::new();
        for (h, e) in self.fs.extents() {
            index.insert(h, e);
        }
        let saved = Saved {
            state,
            inodes,
            snapshots,
        };
        let len = self.log.len() as u64;
        Volume {
            fs: Filesystem::open(Some(saved), index, len, NOW).unwrap(),
            log: self.log,
        }
    }
}

#[test]
fn write_read_roundtrip() {
    let mut v = Volume::new();
    v.fs.mkdir("/docs", NOW).unwrap();
    v.write_file("/docs/a.txt", b"hello world").unwrap();
    assert_eq!(v.read_file("/docs/a.txt").unwrap(), b"hello world");
}

#[test]
fn overwrite_updates_content() {
    let mut v = Volume::new();
    v.write_file("/f", b"one").unwrap();
    v.write_file("/f", b"two-longer").unwrap();
    assert_eq!(v.read_file("/f").unwrap(), b"two-longer");
}

#[test]
fn small_files_are_inlined_not_blocked() {
    let mut v = Volume::new();
    // A small file (<= INLINE_MAX) must read back correctly...
    let small = vec![0xABu8; INLINE_MAX];
    v.write_file("/small.bin", &small).unwrap();
    assert_eq!(v.read_file("/small.bin").unwrap(), small);
    // ...and must NOT have touched the block store at all.
    assert_eq!(
        v.fs.info().unwrap().unique_blocks,
        0,
        "small file should be inline, not stored as blocks"
    );

    // A file just over the threshold uses blocks as before.
    let big = vec![0xCDu8; INLINE_MAX + 1];
    v.write_file("/big.bin", &big).unwrap();
    assert_eq!(v.read_file("/big.bin").unwrap(), big);
    assert!(v.fs.info().unwrap().unique_blocks > 0);

    // Growing past the threshold then shrinking back round-trips both ways.
    v.write_file("/g", &vec![1u8; INLINE_MAX + 100]).unwrap();
    assert_eq!(v.read_file("/g").unwrap().len(), INLINE_MAX + 100);
    v.write_file("/g", b"tiny").unwrap();
    assert_eq!(v.read_file("/g").unwrap(), b"tiny");
}

#[test]
fn dedup_stores_identical_blocks_once() {
    let mut v = Volume::new();
    let payload = vec![7u8; 100_000];
    v.write_file("/a", &payload).unwrap();
    v.write_file("/b", &payload).unwrap();
    let info = v.fs.info().unwrap();
    // two files referencing the same blocks -> dedup ratio ~2x
    let dedup_ratio = info.referenced_bytes as f64 / info.physical_referenced as f64;
    assert!(dedup_ratio > 1.5, "ratio was {}", dedup_ratio);
}

#[test]
fn snapshot_and_rollback() {
    let mut v = Volume::new();
    v.write_file("/x", b"v1").unwrap();
    v.fs.snapshot("s1");
    v.write_file("/x", b"v2").unwrap();
    assert_eq!(v.read_file("/x").unwrap(), b"v2");
    v.fs.rollback("s1").unwrap();
    assert_eq!(v.read_file("/x").unwrap(), b"v1");
}

#[test]
fn scrub_clean_after_writes() {
    let mut v = Volume::new();
    v.write_file("/a", b"abc").unwrap();
    v.write_file("/b", &vec![1u8; 200_000]).unwrap();
    let (checked, bad) = v.scrub();
    assert!(checked > 0);
    assert!(bad.is_empty());
}

#[test]
fn persists_across_reopen() {
    let mut v = Volume::new();
    v.write_file("/keep.txt", b"durable").unwrap();
    let mut v = v.reopen();
    assert_eq!(v.read_file("/keep.txt").unwrap(), b"durable");
}

#[test]
fn remove_and_readdir() {
    let mut v = Volume::new();
    v.write_file("/d/a", b"1").unwrap();
    v.write_file("/d/b", b"2").unwrap();
    assert_eq!(v.fs.readdir("/d").unwrap().len(), 2);
    v.fs.remove("/d/a", NOW).unwrap();
    assert_eq!(v.fs.readdir("/d").unwrap().len(), 1);
    assert!(!v.fs.path_exists("/d/a"));
}

#[test]
fn large_files_read_back_block_by_block() {
    let mut v = Volume::new();
    let data: Vec<u8> = (0..3 * BLOCK_SIZE + 17).map(|i| (i / 251) as u8).collect();
    v.write_file("/deep/er/file", &data).unwrap();
    assert_eq!(v.read_file("/deep/er/file").unwrap(), data);
    // A fresh block cache has to go to the log.
    let mut v = v.reopen();
    assert_eq!(v.read_file("/deep/er/file").unwrap(), data);
    assert_eq!(v.fs.cache_stats().misses, 4);
    assert_eq!(v.read_file("/deep/er/file").unwrap(), data);
    assert_eq!(v.fs.cache_stats().hits, 4);
}

#[test]
fn a_written_file_has_the_stat_of_its_content() {
    let mut v = Volume::new();
    v.write_file("/a/b", &vec![3u8; BLOCK_SIZE + 1]).unwrap();
    let s = v.fs.stat("/a/b").unwrap();
    assert_eq!(s.kind, "file");
    assert_eq!(s.size, BLOCK_SIZE as u64 + 1);
    assert_eq!(s.blocks, 2);
    assert_eq!(s.entries, 0);
    assert_eq!(s.mtime, NOW);
    let d = v.fs.stat("/a").unwrap();
    assert_eq!(d.kind, "dir");
    assert_eq!(d.entries, 1);
    assert_eq!(d.blocks, 0);
    assert_eq!(d.size, 0);
}

#[test]
fn directories_list_their_entries_in_order() {
    let mut v = Volume::new();
    v.fs.mkdir("/d", NOW).unwrap();
    v.write_file("/d/zeta", b"z").unwrap();
    v.write_file("/d/alpha", b"a").unwrap();
    v.fs.mkdir("/d/mid", NOW).unwrap();
    let got = v.fs.readdir("/d").unwrap();
    let want = vec![
        ("alpha".to_string(), "file".to_string()),
        ("mid".to_string(), "dir".to_string()),
        ("zeta".to_string(), "file".to_string()),
    ];
    assert_eq!(got, want);
    assert_eq!(v.fs.readdir("/").unwrap().len(), 1);
}

#[test]
fn a_listing_agrees_with_the_paths() {
    let mut v = Volume::new();
    v.write_file("/d/sub/x", b"1").unwrap();
    v.write_file("/d/f", b"2").unwrap();
    let listed = v.fs.readdir("/d").unwrap();
    assert_eq!(
        listed,
        vec![("f".into(), "file".into()), ("sub".into(), "dir".into())]
    );
    for (name, _) in &listed {
        assert!(v.fs.path_exists(&format!("/d/{name}")));
    }
    assert!(!v.fs.path_exists("/d/other"));
    assert!(v.fs.readdir("/d/f").is_err());
    // Every directory on the way to a file is there.
    for dir in ["/", "/d", "/d/sub"] {
        assert!(v.fs.readdir(dir).is_ok());
    }
}

#[test]
fn other_paths_keep_their_content() {
    let mut v = Volume::new();
    v.write_file("/a/x", b"1").unwrap();
    v.write_file("/a/y", b"2").unwrap();
    v.write_file("/a/x", b"3").unwrap();
    v.fs.mkdir("/b", NOW).unwrap();
    v.fs.remove("/a/x", NOW).unwrap();
    assert_eq!(v.read_file("/a/y").unwrap(), b"2");
}

#[test]
fn mkdir_makes_missing_parents_and_a_fresh_directory() {
    let mut v = Volume::new();
    v.fs.mkdir("/p/q/r", NOW).unwrap();
    assert!(v.fs.path_exists("/p/q/r"));
    v.write_file("/p/q/r/f", b"kept").unwrap();
    assert_eq!(v.read_file("/p/q/r/f").unwrap(), b"kept");
    // What was there before makes way for an empty directory.
    v.fs.mkdir("/p/q", NOW).unwrap();
    assert_eq!(v.fs.readdir("/p/q").unwrap().len(), 0);
    // The root is there already.
    v.fs.mkdir("/", NOW).unwrap();
    assert!(v.fs.path_exists("/p/q"));
}

#[test]
fn rename_moves_a_file_and_a_subtree() {
    let mut v = Volume::new();
    v.write_file("/a/f", b"data").unwrap();
    v.fs.rename("/a/f", "/b/c/g", NOW).unwrap();
    assert!(!v.fs.path_exists("/a/f"));
    assert_eq!(v.read_file("/b/c/g").unwrap(), b"data");
    v.fs.rename("/b", "/moved", NOW).unwrap();
    assert_eq!(v.read_file("/moved/c/g").unwrap(), b"data");
    assert!(!v.fs.path_exists("/b"));
}

#[test]
fn every_refusal_has_its_error() {
    let mut v = Volume::new();
    v.write_file("/dir/file", b"x").unwrap();
    assert_eq!(v.write_file("/", b"x"), Err(FsError::WriteRoot));
    assert_eq!(v.fs.remove("/", NOW), Err(FsError::RemoveRoot));
    assert_eq!(v.fs.rename("/", "/a", NOW), Err(FsError::RenameRoot));
    assert_eq!(v.fs.rename("/dir", "//", NOW), Err(FsError::RenameRoot));
    assert_eq!(v.read_file("/dir"), Err(FsError::IsDirectory("/dir".into())));
    assert_eq!(
        v.fs.readdir("/dir/file"),
        Err(FsError::IsFile("/dir/file".into()))
    );
    assert_eq!(
        v.read_file("/dir/none"),
        Err(FsError::NoSuchComponent("none".into()))
    );
    assert!(matches!(
        v.fs.stat("/dir/file/below"),
        Err(FsError::NotADirectory(_))
    ));
    assert_eq!(
        v.write_file("/dir/file/below", b"x"),
        Err(FsError::TraversesFile)
    );
    assert!(matches!(
        v.fs.remove("/dir/none", NOW),
        Err(FsError::NoSuchEntry(_))
    ));
    assert!(matches!(
        v.fs.rollback("never"),
        Err(FsError::NoSuchSnapshot(_))
    ));
}

#[test]
fn refusals_read_well() {
    assert_eq!(
        FsError::WriteRoot.message(),
        "cannot write to root"
    );
    assert_eq!(
        FsError::NoSuchComponent("x".into()).message(),
        "no such path component: x"
    );
    let h = hash_bytes(b"");
    assert_eq!(
        FsError::BlockNotFound(h).message(),
        "block not found: af1349b9f5f9a1a6a0404dea36dcc9499bcb25c9adc112b7cc9a93cae41f3262"
    );
}

#[test]
fn damaged_bytes_are_refused() {
    let mut v = Volume::new();
    v.write_file("/big", &vec![5u8; BLOCK_SIZE]).unwrap();
    let mut v = v.reopen();
    v.log[100] ^= 1;
    assert!(matches!(
        v.read_file("/big"),
        Err(FsError::IntegrityFailed { .. })
    ));
    let (checked, bad) = v.scrub();
    assert_eq!(checked, 1);
    assert_eq!(bad.len(), 1);
}

#[test]
fn snapshots_are_listed_and_survive_a_reopen() {
    let mut v = Volume::new();
    v.write_file("/x", b"1").unwrap();
    v.fs.snapshot("one");
    v.write_file("/x", b"2").unwrap();
    v.fs.snapshot("two");
    let names: Vec<String> = v.fs.list_snapshots().into_iter().map(|s| s.0).collect();
    assert_eq!(names, vec!["one".to_string(), "two".to_string()]);
    let mut v = v.reopen();
    v.fs.rollback("one").unwrap();
    assert_eq!(v.read_file("/x").unwrap(), b"1");
    v.fs.rollback("two").unwrap();
    assert_eq!(v.read_file("/x").unwrap(), b"2");
}

#[test]
fn gc_keeps_what_is_reachable_and_drops_the_rest() {
    let mut v = Volume::new();
    let keep = vec![1u8; BLOCK_SIZE];
    let old = vec![2u8; BLOCK_SIZE];
    let gone = vec![3u8; BLOCK_SIZE];
    v.write_file("/keep", &keep).unwrap();
    v.write_file("/pinned", &old).unwrap();
    v.fs.snapshot("s");
    v.write_file("/pinned", b"new").unwrap();
    v.write_file("/gone", &gone).unwrap();
    v.fs.remove("/gone", NOW).unwrap();
    // What only a snapshot refers to is not part of the live tree.
    assert_eq!(
        v.fs.info().unwrap().reclaimable_bytes,
        2 * BLOCK_SIZE as u64
    );
    let (kept, dropped, reclaimed) = v.gc();
    assert_eq!((kept, dropped), (2, 1));
    assert_eq!(reclaimed, BLOCK_SIZE as u64);
    assert_eq!(
        v.fs.info().unwrap().reclaimable_bytes,
        BLOCK_SIZE as u64
    );
    assert_eq!(v.log.len(), 2 * (BLOCK_SIZE + 4));
    let mut v = v.reopen();
    assert_eq!(v.read_file("/keep").unwrap(), keep);
    v.fs.rollback("s").unwrap();
    assert_eq!(v.read_file("/pinned").unwrap(), old);
    assert!(v.scrub().1.is_empty());
}

#[test]
fn gc_without_snapshots_leaves_nothing_to_reclaim() {
    let mut v = Volume::new();
    v.write_file("/a", &vec![1u8; BLOCK_SIZE]).unwrap();
    v.write_file("/a", &vec![2u8; BLOCK_SIZE]).unwrap();
    v.gc();
    assert_eq!(v.fs.info().unwrap().reclaimable_bytes, 0);
    assert_eq!(v.read_file("/a").unwrap(), vec![2u8; BLOCK_SIZE]);
}

#[test]
fn info_counts_the_live_tree() {
    let mut v = Volume::new();
    v.write_file("/d/a", b"12345").unwrap();
    v.write_file("/d/b", &vec![9u8; 100_000]).unwrap();
    let i = v.fs.info().unwrap();
    assert_eq!(i.files, 2);
    assert_eq!(i.dirs, 2);
    assert_eq!(i.logical_bytes, 100_005);
    assert_eq!(i.referenced_bytes, 100_000);
    assert_eq!(i.physical_referenced, 100_000);
    assert_eq!(i.physical_total, 100_000);
    assert_eq!(i.unique_blocks, 2);
    assert_eq!(i.txg, v.fs.state().txg);
}

#[test]
fn sizes_add_up() {
    let mut v = Volume::new();
    let empty = v.fs.info().unwrap();
    assert_eq!((empty.referenced_bytes, empty.physical_referenced), (0, 0));
    assert_eq!(empty.dirs, 1);
    v.write_file("/a", &vec![1u8; 10_000]).unwrap();
    v.write_file("/b", &vec![1u8; 10_000]).unwrap();
    v.write_file("/c", &vec![2u8; 20_000]).unwrap();
    v.fs.remove("/c", NOW).unwrap();
    let info = v.fs.info().unwrap();
    assert_eq!(info.referenced_bytes, 20_000);
    assert_eq!(info.physical_referenced, 10_000);
    assert_eq!(info.physical_total, 30_000);
    assert_eq!(info.reclaimable_bytes, 20_000);
}

#[test]
fn every_change_moves_on_to_a_new_root() {
    let mut v = Volume::new();
    let first = v.fs.state();
    v.write_file("/a", b"x").unwrap();
    let second = v.fs.state();
    assert!(second.root != first.root);
    assert_eq!(second.txg, first.txg + 1);
    // The old root is still there, and empty.
    match &*v.fs.inode(first.root).unwrap() {
        Inode::Dir { entries, .. } => assert_eq!(entries.len(), 0),
        Inode::File { .. } => panic!("the root is a directory"),
    }
}

fn saved(root: u64, next_inode: u64, inodes: SortedMap<u64, Arc<Inode>>) -> Saved {
    Saved {
        state: SuperBlock {
            root,
            next_inode,
            txg: 1,
        },
        inodes,
        snapshots: SortedMap::new(),
    }
}

#[test]
fn any_saved_volume_opens() {
    // The root is not there.
    let s = saved(5, 5, SortedMap::new());
    let mut fs = Filesystem::open(Some(s), SortedMap::new(), 0, NOW).unwrap();
    assert_eq!(fs.readdir("/"), Err(FsError::DanglingInode(5)));
    assert!(fs.walk_ends());
    assert_eq!(fs.info().unwrap_err(), FsError::DanglingInode(5));
    // A directory is its own entry, and leads to an id that was not given out.
    let mut entries = SortedMap::new();
    entries.insert("loop".to_string(), 1u64);
    entries.insert("young".to_string(), 7u64);
    let mut inodes = SortedMap::new();
    inodes.insert(
        1u64,
        Arc::new(Inode::Dir {
            entries,
            mtime: NOW,
        }),
    );
    inodes.insert(
        7u64,
        Arc::new(Inode::File {
            size: 2,
            blocks: vec![],
            inline: b"hi".to_vec(),
            mtime: NOW,
            mode: 0o644,
        }),
    );
    let s = saved(1, 2, inodes);
    let mut v = Volume {
        fs: Filesystem::open(Some(s), SortedMap::new(), 0, NOW).unwrap(),
        log: Vec::new(),
    };
    assert_eq!(v.read_file("/loop/loop/young").unwrap(), b"hi");
    assert_eq!(v.fs.readdir("/loop").unwrap().len(), 2);
    // A walk would not come to an end.
    assert!(!v.fs.walk_ends());
    assert!(!v.fs.all_walks_end());
    v.write_file("/new", b"x").unwrap();
    assert_eq!(v.read_file("/new").unwrap(), b"x");
    v.fs.remove("/loop", NOW).unwrap();
    assert!(v.fs.walk_ends());
    assert_eq!(v.fs.info().unwrap().files, 2);
}

#[test]
fn gc_refuses_damaged_blocks() {
    let mut v = Volume::new();
    v.write_file("/big", &vec![3u8; 5000]).unwrap();
    let live = v.fs.gc_live().unwrap();
    let reads = v.fs.gc_reads(&live);
    assert_eq!(reads.len(), 1);
    let (hash, e) = reads[0];
    let mut bytes = v.bytes(e);
    let mut record = 5000u32.to_le_bytes().to_vec();
    record.extend_from_slice(&bytes);
    assert_eq!(Filesystem::gc_copy(&hash, &bytes), Ok(record));
    bytes[17] ^= 1;
    assert_eq!(
        Filesystem::gc_copy(&hash, &bytes),
        Err(FsError::IntegrityFailed {
            expected: hash,
            actual: hash_bytes(&bytes),
        })
    );
}

#[test]
fn a_rollback_undoes_any_number_of_calls() {
    let mut v = Volume::new();
    let big = vec![9u8; 100_000];
    v.write_file("/d/big", &big).unwrap();
    v.write_file("/d/small", b"old").unwrap();
    v.fs.snapshot("s");
    let listing = v.fs.readdir("/d").unwrap();
    let size = v.fs.stat("/d/big").unwrap().size;
    v.write_file("/d/big", &vec![8u8; 70_000]).unwrap();
    v.fs.remove("/d/small", NOW).unwrap();
    v.fs.rename("/d", "/e", NOW).unwrap();
    v.fs.mkdir("/d", NOW).unwrap();
    v.fs.snapshot("t");
    v.fs.rollback("t").unwrap();
    let txg = v.fs.info().unwrap().txg;
    let snapshots = v.fs.list_snapshots();
    assert_eq!(
        v.fs.rollback("u"),
        Err(FsError::NoSuchSnapshot("u".to_string()))
    );
    v.fs.rollback("s").unwrap();
    assert_eq!(v.fs.info().unwrap().txg, txg + 1);
    assert_eq!(v.fs.list_snapshots(), snapshots);
    assert_eq!(v.fs.readdir("/d").unwrap(), listing);
    assert_eq!(v.fs.stat("/d/big").unwrap().size, size);
    assert_eq!(v.read_file("/d/big").unwrap(), big);
    assert_eq!(v.read_file("/d/small").unwrap(), b"old");
    assert!(!v.fs.path_exists("/e"));
}

#[test]
fn a_missing_inode_is_reported() {
    let s = saved(1, 2, SortedMap::new());
    let mut fs = Filesystem::open(Some(s), SortedMap::new(), 0, NOW).unwrap();
    assert_eq!(fs.readdir("/"), Err(FsError::DanglingInode(1)));
    assert_eq!(FsError::DanglingInode(1).message(), "dangling inode 1");
}

#[test]
fn a_missing_block_is_reported() {
    let h = hash_bytes(b"never stored");
    let mut inodes = SortedMap::new();
    inodes.insert(
        0u64,
        Arc::new(Inode::File {
            size: 12,
            blocks: vec![h],
            inline: vec![],
            mtime: NOW,
            mode: 0o644,
        }),
    );
    let mut entries = SortedMap::new();
    entries.insert("f".to_string(), 0u64);
    inodes.insert(
        1u64,
        Arc::new(Inode::Dir {
            entries,
            mtime: NOW,
        }),
    );
    let s = saved(1, 2, inodes);
    let mut fs = Filesystem::open(Some(s), SortedMap::new(), 0, NOW).unwrap();
    let mut job = fs.read_file("/f").unwrap();
    match fs.fetch(&mut job) {
        Err(e) => assert_eq!(e, FsError::BlockNotFound(h)),
        Ok(_) => panic!("the block is not there"),
    }
}
