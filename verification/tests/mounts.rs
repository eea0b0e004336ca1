//! The passthrough mount's bookkeeping and the in-memory drive.
use neuralfs::mountfs::{
    attr_from_meta, dir_page, file_kind, FileKind, Metadata, PassthroughFs, ReadSource, ROOT_INO,
    TTL_SECS,
};
use neuralfs::paths::{child_path, tidy_path};
use neuralfs::winfsphost::{
    basename_of, filetime, key_of, parent_of, NeuralWinFsContext, Status, FILE_ATTRIBUTE_ARCHIVE,
    FILE_ATTRIBUTE_DIRECTORY, FILE_DIRECTORY_FILE,
};

fn mount() -> PassthroughFs {
    PassthroughFs::new(b"/back", 1 << 20)
}

#[test]
fn inode_numbers_are_stable() {
    let mut fs = mount();
    assert!(fs.numbers_left());
    assert_eq!(fs.path_of(ROOT_INO).unwrap(), b"/back");
    assert_eq!(fs.ino_for(b"/back"), ROOT_INO);
    let a = fs.ino_for(b"/back/a");
    let b = fs.ino_for(b"/back/b");
    assert_eq!((a, b), (2, 3));
    assert_eq!(fs.ino_for(b"/back/a"), a);
    assert_eq!(fs.path_of(a).unwrap(), b"/back/a");
    fs.forget_path(b"/back/a");
    assert!(fs.path_of(a).is_none());
    // A forgotten number is not given out again.
    assert_eq!(fs.ino_for(b"/back/a"), 4);
}

#[test]
fn numbers_outlast_other_calls() {
    let mut fs = mount();
    let a = fs.ino_for(b"/back/a");
    fs.ino_for(b"/back/b");
    fs.open_handle(a, true);
    fs.load(a, b"content".to_vec());
    fs.read(a, 0, 3);
    fs.wrote(a);
    fs.resized(a);
    fs.created(b"/back/c");
    fs.renamed(b"/back/b", b"/back/d");
    fs.forget_path(b"/back/c");
    assert_eq!(fs.ino_for(b"/back/a"), a);
    assert_eq!(fs.path_of(a).unwrap(), b"/back/a");
    // Nobody gets a number that was let go of.
    assert_eq!(fs.ino_for(b"/back/d"), 5);
}

#[test]
fn spellings_of_a_path_share_a_number() {
    let mut fs = mount();
    let a = fs.ino_for(b"/back/a/b");
    for same in ["/back/a//b", "//back/./a/b/", "/./back/a/b/."] {
        assert_eq!(fs.ino_for(same.as_bytes()), a);
    }
    assert_ne!(fs.ino_for(b"back/a/b"), a);
    assert_ne!(fs.ino_for(b"/back/a/../a/b"), a);
    // The path is shown as it was spelled first.
    assert_eq!(fs.path_of(a).unwrap(), b"/back/a/b");
    fs.forget_path(b"/back//a/b");
    assert!(fs.path_of(a).is_none());
    assert_eq!(tidy_path(b"./a//./b/"), b"./a/b");
    assert_eq!(tidy_path(b"a/./b"), b"a/b");
    assert_eq!(tidy_path(b"//"), b"/");
    assert_eq!(tidy_path(b""), b"");
}

#[test]
fn names_are_looked_up_in_directories() {
    let mut fs = mount();
    let m = Metadata {
        is_dir: false,
        is_symlink: false,
        len: 1000,
        ctime: 7,
        mode: 0o100644,
        nlink: 1,
        uid: 1,
        gid: 2,
        rdev: 0,
    };
    assert_eq!(fs.child_of(ROOT_INO, b"f").unwrap(), b"/back/f");
    assert!(fs.child_of(99, b"f").is_none());
    assert!(fs.lookup(ROOT_INO, b"f", None).is_none());
    assert!(fs.lookup(99, b"f", Some(m)).is_none());
    let e = fs.lookup(ROOT_INO, b"f", Some(m)).unwrap();
    assert_eq!(e.ttl_secs, 5);
    assert_eq!((e.attributes.ino, e.attributes.blocks), (2, 2));
    fs.ino_for(b"/back/other");
    assert_eq!(
        fs.lookup(ROOT_INO, b"f", Some(m)).unwrap().attributes.ino,
        2
    );
    assert_eq!(child_path(b"/d/", b"x"), b"/d/x");
    assert_eq!(child_path(b"/d", b"/x"), b"/x");
}

#[test]
fn a_second_open_makes_a_file_hot() {
    let mut fs = mount();
    let ino = fs.ino_for(b"/back/f");
    let (first, hot) = fs.open_handle(ino, true);
    assert!(!hot);
    let (second, hot) = fs.open_handle(ino, true);
    assert!(hot);
    assert!(first != second);
    fs.load(ino, b"content".to_vec());
    // What is cached needs no loading.
    assert!(!fs.open_handle(ino, true).1);
    match fs.read(ino, 2, 3) {
        ReadSource::Cached(bytes) => assert_eq!(bytes, b"nte"),
        _ => panic!("the file is cached"),
    }
    match fs.read(ino, 5, 100) {
        ReadSource::Cached(bytes) => assert_eq!(bytes, b"nt"),
        _ => panic!("the file is cached"),
    }
    match fs.read(ino, 50, 1) {
        ReadSource::Cached(bytes) => assert_eq!(bytes.len(), 0),
        _ => panic!("the file is cached"),
    }
    // Opening for writing only does not count.
    let other = fs.ino_for(b"/back/g");
    fs.open_handle(other, false);
    fs.open_handle(other, false);
    assert!(!fs.open_handle(other, true).1);
}

#[test]
fn no_read_is_stale() {
    let mut fs = mount();
    let ino = fs.ino_for(b"/back/f");
    fs.open_handle(ino, true);
    fs.open_handle(ino, true);
    fs.load(ino, b"old".to_vec());
    fs.wrote(ino);
    match fs.read(ino, 0, 3) {
        ReadSource::Backing(path) => assert_eq!(path, b"/back/f"),
        _ => panic!("the cached copy is stale"),
    }
    // The file has to become hot anew.
    assert!(!fs.open_handle(ino, true).1);
    assert!(fs.open_handle(ino, true).1);
    fs.load(ino, b"new".to_vec());
    fs.resized(ino);
    assert!(matches!(fs.read(ino, 0, 3), ReadSource::Backing(_)));
    fs.load(ino, b"new".to_vec());
    let (again, _) = fs.created(b"/back/f");
    assert_eq!(again, ino);
    assert!(matches!(fs.read(ino, 0, 3), ReadSource::Backing(_)));
    fs.load(ino, b"new".to_vec());
    fs.renamed(b"/back/f", b"/back/g");
    assert!(matches!(fs.read(ino, 0, 3), ReadSource::Unknown));
}

#[test]
fn large_files_are_not_cached() {
    assert!(PassthroughFs::cacheable(256 * 1024 * 1024));
    assert!(!PassthroughFs::cacheable(256 * 1024 * 1024 + 1));
    assert_eq!(TTL_SECS, 5);
}

#[test]
fn attributes_are_taken_from_the_metadata() {
    let a = attr_from_meta(
        9,
        &Metadata {
            is_dir: false,
            is_symlink: false,
            len: 1025,
            ctime: -5,
            mode: 0o100_644,
            nlink: 1,
            uid: 10,
            gid: 20,
            rdev: 0,
        },
    );
    assert_eq!((a.ino, a.size, a.blocks, a.ctime), (9, 1025, 3, 0));
    assert_eq!(a.kind, FileKind::RegularFile);
    assert_eq!(a.perm, 0o644);
    assert_eq!((a.nlink, a.uid, a.gid, a.rdev), (1, 10, 20, 0));
    assert_eq!(file_kind(true, false), FileKind::Directory);
    assert_eq!(file_kind(false, true), FileKind::Symlink);
}

#[test]
fn a_directory_is_listed_page_by_page() {
    let children = vec![
        (5, FileKind::RegularFile, "a".to_string()),
        (6, FileKind::Directory, "b".to_string()),
    ];
    let all = dir_page(1, &children, 0);
    let names: Vec<&str> = all.iter().map(|e| e.name.as_str()).collect();
    assert_eq!(names, vec![".", "..", "a", "b"]);
    assert_eq!(all[0].next, 1);
    assert_eq!(all[3].next, 4);
    assert_eq!(all[1].ino, 1);
    assert_eq!(all[2].ino, 5);
    let rest = dir_page(1, &children, 3);
    assert_eq!(rest.len(), 1);
    assert_eq!(rest[0].name, "b");
    assert_eq!(dir_page(1, &children, 9).len(), 0);
}

fn k(s: &str) -> String {
    s.to_string()
}

fn drive() -> NeuralWinFsContext {
    let mut d = NeuralWinFsContext::new(100);
    d.create(k("\\docs"), FILE_DIRECTORY_FILE, 0, 101).unwrap();
    d.create(k("\\docs\\a.txt"), 0, 0, 102).unwrap();
    d
}

#[test]
fn keys_have_parents_and_names() {
    assert_eq!(parent_of("\\"), "\\");
    assert_eq!(parent_of("\\a"), "\\");
    assert_eq!(parent_of("\\a\\b"), "\\a");
    assert_eq!(parent_of("a"), "\\");
    assert_eq!(basename_of("\\a\\b"), "b");
    assert_eq!(basename_of("a"), "a");
    assert_eq!(key_of(""), "\\");
    assert_eq!(key_of("\\a"), "\\a");
}

#[test]
fn windows_times_count_from_1601() {
    assert_eq!(filetime(0), 116_444_736_000_000_000);
    assert_eq!(filetime(1_234), 116_444_736_000_000_012);
}

#[test]
fn nodes_are_created_in_directories_only() {
    let mut d = drive();
    assert_eq!(d.count(), 3);
    let root = d.open(&k("\\")).unwrap();
    assert_eq!(root.file_attributes, FILE_ATTRIBUTE_DIRECTORY);
    assert_eq!(root.index_number, 1);
    let f = d.open(&k("\\docs\\a.txt")).unwrap();
    assert_eq!(f.file_attributes, FILE_ATTRIBUTE_ARCHIVE);
    assert_eq!((f.creation_time, f.index_number), (102, 3));
    assert_eq!(
        d.create(k("\\docs"), 0, 0, 103),
        Err(Status::ObjectNameCollision)
    );
    assert_eq!(
        d.create(k("\\none\\x"), 0, 0, 103),
        Err(Status::ObjectNameNotFound)
    );
    assert_eq!(
        d.create(k("\\docs\\a.txt\\x"), 0, 0, 103),
        Err(Status::ObjectNameNotFound)
    );
    assert_eq!(d.open(&k("\\none")), Err(Status::ObjectNameNotFound));
}

#[test]
fn what_is_written_is_read() {
    let mut d = drive();
    let f = k("\\docs\\a.txt");
    assert!(d.write_fits(&f, 2, 3, false, false));
    let (n, info) = d.write(&f, b"xyz", 2, false, false, 200).unwrap();
    assert_eq!(n, 3);
    assert_eq!((info.file_size, info.allocation_size), (5, 4096));
    assert_eq!(info.last_write_time, 200);
    assert_eq!(d.read(&f, 0, 10).unwrap(), b"\0\0xyz");
    assert_eq!(d.read(&f, 3, 1).unwrap(), b"y");
    assert_eq!(d.read(&f, 5, 1), Err(Status::EndOfFile));
    // At the end of the file, wherever the offset points.
    d.write(&f, b"!", 0, true, false, 201).unwrap();
    assert_eq!(d.read(&f, 2, 10).unwrap(), b"xyz!");
    // A constrained write never grows the file.
    assert_eq!(d.write(&f, b"abcd", 4, false, true, 202).unwrap().0, 2);
    assert_eq!(d.read(&f, 0, 10).unwrap(), b"\0\0xyab");
    assert_eq!(d.write(&f, b"abcd", 6, false, true, 203).unwrap().0, 0);
    // However far off it is, then; a free one there would not fit.
    assert!(!d.write_fits(&f, u64::MAX, 4, false, false));
    assert!(d.write_fits(&f, u64::MAX, 4, false, true));
    assert_eq!(d.write(&f, b"abcd", u64::MAX, false, true, 203).unwrap().0, 0);
    d.set_file_size(&f, 3, 204).unwrap();
    assert_eq!(d.read(&f, 0, 10).unwrap(), b"\0\0x");
    assert_eq!(
        d.write(&k("\\no"), b"x", 0, false, false, 1),
        Err(Status::AccessDenied)
    );
    assert_eq!(d.read(&k("\\no"), 0, 1), Err(Status::ObjectNameNotFound));
    let (total, free) = d.volume_info();
    assert_eq!(total, 1u64 << 32);
    assert_eq!(free, (1u64 << 32) - 3);
}

#[test]
fn basic_info_keeps_what_is_zero() {
    let mut d = drive();
    let f = k("\\docs\\a.txt");
    let i = d.set_basic_info(&f, 1, 11, 0, 13, 0).unwrap();
    assert_eq!(i.file_attributes, 1);
    assert_eq!(
        (i.creation_time, i.last_access_time, i.last_write_time, i.change_time),
        (11, 102, 13, 102)
    );
    let i = d.set_basic_info(&f, u32::MAX, 0, 0, 0, 0).unwrap();
    assert_eq!(i.file_attributes, 1);
    assert_eq!(
        d.set_basic_info(&k("\\no"), 1, 0, 0, 0, 0),
        Err(Status::ObjectNameNotFound)
    );
}

#[test]
fn renaming_moves_the_subtree() {
    let mut d = drive();
    d.write(&k("\\docs\\a.txt"), b"data", 0, false, false, 1).unwrap();
    d.create(k("\\docs2"), FILE_DIRECTORY_FILE, 0, 1).unwrap();
    d.rename(&k("\\docs"), &k("\\moved"), false).unwrap();
    assert_eq!(d.read(&k("\\moved\\a.txt"), 0, 9).unwrap(), b"data");
    assert_eq!(d.open(&k("\\docs")), Err(Status::ObjectNameNotFound));
    assert!(d.open(&k("\\docs2")).is_ok());
    assert_eq!(
        d.rename(&k("\\moved"), &k("\\docs2"), false),
        Err(Status::ObjectNameCollision)
    );
    d.rename(&k("\\moved"), &k("\\docs2"), true).unwrap();
    assert_eq!(d.read(&k("\\docs2\\a.txt"), 0, 9).unwrap(), b"data");
}

#[test]
fn listings_are_ordered_by_name() {
    let mut d = drive();
    d.create(k("\\zed"), 0, 0, 1).unwrap();
    d.create(k("\\alpha"), 0, 0, 1).unwrap();
    let names: Vec<String> = d
        .read_directory(&k("\\"))
        .into_iter()
        .map(|e| e.0)
        .collect();
    assert_eq!(names, vec![".", "..", "alpha", "docs", "zed"]);
    // A path without a backslash stands in the root, too.
    d.create(k("beta"), 0, 0, 1).unwrap();
    let names: Vec<String> = d
        .read_directory(&k("\\"))
        .into_iter()
        .map(|e| e.0)
        .collect();
    assert_eq!(names, vec![".", "..", "alpha", "beta", "docs", "zed"]);
}

#[test]
fn only_an_empty_directory_is_deleted() {
    let mut d = drive();
    d.cleanup_delete(&k("\\docs"));
    assert!(d.open(&k("\\docs")).is_ok());
    d.cleanup_delete(&k("\\docs\\a.txt"));
    d.cleanup_delete(&k("\\docs"));
    assert!(d.open(&k("\\docs")).is_err());
    assert_eq!(d.count(), 1);
}
