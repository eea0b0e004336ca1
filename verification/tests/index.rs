//! The file index and the look-up of files by a query.
use neuralfs::indexer::{build_entry, index_file, FoundFile};
use neuralfs::protocol::ScoredPath;
use neuralfs::search::{find, fuzzy_match, rank_results, Found, Guess, CERTAIN, UNKNOWN};
use neuralfs::store::{hash_path, FileEntry, Store};
use neuralfs::watcher::{handle_event, EventKind, IndexAction, RetrainCounter};
use std::collections::hash_map::DefaultHasher;

fn file(path: &str) -> FileEntry {
    let (parent, name) = path.rsplit_once('/').unwrap();
    FileEntry {
        path: path.to_string(),
        file_name: name.to_string(),
        extension: String::new(),
        parent: parent.to_string(),
        size: 1,
        modified: 2,
        depth: 3,
        freq: 0,
        last_open: 0,
    }
}

fn paths(v: &[FileEntry]) -> Vec<String> {
    let mut p: Vec<String> = v.iter().map(|e| e.path.clone()).collect();
    p.sort();
    p
}

fn store_of(files: &[&str]) -> Store {
    let mut s = Store::new();
    for f in files {
        s.upsert(file(f));
    }
    s
}

#[test]
fn keys_are_hashes_of_the_path() {
    let mut h = DefaultHasher::new();
    std::hash::Hash::hash("/home/a.txt", &mut h);
    let want: u64 = std::hash::Hasher::finish(&h);
    assert_eq!(hash_path("/home/a.txt"), want);
    assert_eq!(file("/home/a.txt").key(), want);
    assert!(hash_path("/home/a.txt") != hash_path("/home/b.txt"));
}

#[test]
fn an_indexed_file_is_found_where_it_is() {
    let s = store_of(&["/home/a.txt", "/home/b.txt", "/etc/a.txt"]);
    assert_eq!(s.len(), 3);
    assert_eq!(paths(&s.files_in("/home")), vec!["/home/a.txt", "/home/b.txt"]);
    // Directories and names are looked up without regard to case.
    assert_eq!(paths(&s.files_in("/HOME")), vec!["/home/a.txt", "/home/b.txt"]);
    assert_eq!(paths(&s.files_named("A.TXT")), vec!["/etc/a.txt", "/home/a.txt"]);
    assert_eq!(s.files_in("/hom").len(), 0);
    assert_eq!(s.files_named("a").len(), 0);
    assert_eq!(s.all_entries().len(), 3);
}

#[test]
fn a_removed_file_is_gone_everywhere() {
    let mut s = store_of(&["/home/a.txt", "/home/b.txt"]);
    assert_eq!(s.remove("/home/a.txt").unwrap().path, "/home/a.txt");
    assert!(s.remove("/home/a.txt").is_none());
    assert_eq!(s.len(), 1);
    assert_eq!(s.files_named("a.txt").len(), 0);
    assert_eq!(paths(&s.files_in("/home")), vec!["/home/b.txt"]);
}

#[test]
fn reindexing_keeps_the_history() {
    let mut s = store_of(&["/home/a.txt"]);
    let e = s.touch_open("/home/a.txt", 77).unwrap();
    assert_eq!((e.freq, e.last_open), (1, 77));
    assert!(s.touch_open("/home/none", 77).is_none());
    let mut again = file("/home/a.txt");
    again.size = 999;
    s.upsert_preserving_stats(again);
    let e = &s.all_entries()[0];
    assert_eq!((e.size, e.freq, e.last_open), (999, 1, 77));
    // A plain update takes the entry as it is.
    s.upsert(file("/home/a.txt"));
    let e = &s.all_entries()[0];
    assert_eq!((e.freq, e.last_open), (0, 0));
}

#[test]
fn a_moved_entry_leaves_its_old_directory() {
    let mut s = store_of(&["/home/a.txt"]);
    let mut e = file("/home/a.txt");
    e.parent = "/elsewhere".into();
    s.upsert(e);
    assert_eq!(s.files_in("/home").len(), 0);
    assert_eq!(s.files_in("/elsewhere").len(), 1);
}

#[test]
fn a_match_contains_the_query_or_shares_a_word() {
    let files = vec![
        file("/d/Quarterly-Report.pdf"),
        file("/d/report.txt"),
        file("/d/notes.txt"),
    ];
    let got = fuzzy_match("REPORT", files);
    assert_eq!(paths(&got), vec!["/d/Quarterly-Report.pdf", "/d/report.txt"]);
    let got = fuzzy_match("my notes", vec![file("/d/notes.txt"), file("/d/x")]);
    assert_eq!(paths(&got), vec!["/d/notes.txt"]);
    // Without a word in it, the query has to occur.
    assert_eq!(fuzzy_match("z", vec![file("/d/notes.txt")]).len(), 0);
}

#[test]
fn an_exact_name_wins_at_once() {
    let s = store_of(&["/a/plan.txt", "/b/plan.txt", "/b/plan.txt.bak"]);
    match find(&s, &vec![], "  plan.txt ") {
        Found::Named(hits) => {
            assert_eq!(hits.len(), 2);
            assert!(hits.iter().all(|h| h.confidence == CERTAIN));
            assert_eq!(f64::from_bits(CERTAIN), 1.0);
        }
        Found::Matching(_) => panic!("the name is indexed"),
    }
}

fn guess(chain: &[&str], confidence: f64) -> Guess {
    Guess {
        chain: chain.iter().map(|s| s.to_string()).collect(),
        confidence: confidence.to_bits(),
    }
}

#[test]
fn a_guess_is_searched_inside_out() {
    let s = store_of(&["/w/plan-a.txt", "/w/x/other.txt", "/y/plan-b.txt"]);
    let guesses = vec![guess(&["/w/x", "/w", "/"], 0.75)];
    match find(&s, &guesses, "plan") {
        Found::Matching(hits) => {
            assert_eq!(hits.len(), 1);
            assert_eq!(hits[0].entry.path, "/w/plan-a.txt");
            assert_eq!(hits[0].confidence, 0.75f64.to_bits());
        }
        Found::Named(_) => panic!("no file has that name"),
    }
    // The fourth ancestor of a guess is the last one that is searched.
    let fourth = vec![guess(&["/1", "/2", "/3", "/4", "/w", "/y"], 0.5)];
    match find(&s, &fourth, "plan") {
        Found::Matching(hits) => {
            assert_eq!(hits.len(), 1);
            assert_eq!(hits[0].entry.path, "/w/plan-a.txt");
            assert_eq!(hits[0].confidence, 0.5f64.to_bits());
        }
        Found::Named(_) => panic!("no file has that name"),
    }
    // After that a guess is given up, and everything is searched.
    let deep = vec![guess(&["/1", "/2", "/3", "/4", "/5", "/w"], 0.5)];
    match find(&s, &deep, "plan") {
        Found::Matching(hits) => {
            assert_eq!(hits.len(), 2);
            assert!(hits.iter().all(|h| h.confidence == UNKNOWN));
        }
        Found::Named(_) => panic!("no file has that name"),
    }
    // A directory is searched for the first guess that leads to it.
    let twice = vec![guess(&["/w"], 0.5), guess(&["/W", "/y"], 0.25)];
    match find(&s, &twice, "plan") {
        Found::Matching(hits) => {
            assert_eq!(hits.len(), 1);
            assert_eq!(hits[0].confidence, 0.5f64.to_bits());
        }
        Found::Named(_) => panic!("no file has that name"),
    }
}

#[test]
fn no_file_is_found_twice() {
    let s = store_of(&["/w/plan-a.txt", "/w/plan-b.txt", "/w/x/plan-c.txt", "/y/plan-d.txt"]);
    let guesses = vec![
        guess(&["/w"], 0.5),
        guess(&["/w/x", "/w"], 0.25),
        guess(&["/y", "/"], 0.125),
    ];
    match find(&s, &guesses, "plan") {
        Found::Matching(hits) => {
            let mut paths: Vec<String> = hits.iter().map(|h| h.entry.path.clone()).collect();
            let n = paths.len();
            assert!(n > 1);
            paths.sort();
            paths.dedup();
            assert_eq!(paths.len(), n);
        }
        Found::Named(_) => panic!("no file has that name"),
    }
}

#[test]
fn nothing_that_matches_is_left_out() {
    let s = store_of(&["/a/tax-2020.pdf", "/b/tax-2021.pdf", "/c/other"]);
    match find(&s, &vec![], "tax") {
        Found::Matching(hits) => assert_eq!(hits.len(), 2),
        Found::Named(_) => panic!("no file has that name"),
    }
}

fn scored(path: &str, score: f64) -> ScoredPath {
    ScoredPath {
        path: path.to_string(),
        score: score.to_bits(),
    }
}

#[test]
fn results_are_ranked_by_score() {
    let found = vec![scored("/a", 0.5), scored("/b", 2.0), scored("/c", 1.0)];
    let got = rank_results(&found, true, 2);
    let names: Vec<&str> = got.iter().map(|r| r.path.as_str()).collect();
    assert_eq!(names, vec!["/b", "/c"]);
    assert_eq!(got[0].score, 2.0f64.to_bits());
    // Of equal neighbours one is kept.
    let twice = vec![scored("/a", 1.0), scored("/a", 1.0), scored("/b", 0.5)];
    assert_eq!(rank_results(&twice, true, 10).len(), 2);
    assert_eq!(rank_results(&twice, false, 10).len(), 3);
}

#[test]
fn a_found_file_becomes_an_entry() {
    let e = build_entry(FoundFile {
        path: "/a/b.txt".into(),
        file_name: Some("b.txt".into()),
        extension: Some("txt".into()),
        parent: Some("/a".into()),
        size: 10,
        modified: Some(5),
        depth: 2,
    });
    assert_eq!(e.path, "/a/b.txt");
    assert_eq!(e.file_name, "b.txt");
    assert_eq!(e.extension, "txt");
    assert_eq!(e.parent, "/a");
    assert_eq!((e.size, e.modified, e.depth), (10, 5, 2));
    assert_eq!((e.freq, e.last_open), (0, 0));
    let bare = build_entry(FoundFile {
        path: "/".into(),
        file_name: None,
        extension: None,
        parent: None,
        size: 0,
        modified: None,
        depth: 0,
    });
    assert_eq!(bare.file_name, "");
    assert_eq!(bare.extension, "");
    assert_eq!(bare.parent, "");
    assert_eq!(bare.modified, 0);
}

#[test]
fn indexing_a_file_keeps_its_history() {
    let mut s = store_of(&["/a/b.txt"]);
    s.touch_open("/a/b.txt", 9);
    index_file(
        &mut s,
        FoundFile {
            path: "/a/b.txt".into(),
            file_name: Some("b.txt".into()),
            extension: None,
            parent: Some("/a".into()),
            size: 44,
            modified: None,
            depth: 1,
        },
    );
    let e = &s.all_entries()[0];
    assert_eq!((e.size, e.freq, e.last_open), (44, 1, 9));
}

#[test]
fn events_change_the_index() {
    assert_eq!(handle_event(EventKind::Create), IndexAction::Upsert);
    assert_eq!(handle_event(EventKind::Modify), IndexAction::Upsert);
    assert_eq!(handle_event(EventKind::Remove), IndexAction::Remove);
    assert_eq!(handle_event(EventKind::Other), IndexAction::Ignore);
}

#[test]
fn a_retrain_is_due_at_every_threshold() {
    let mut c = RetrainCounter::new(3);
    let due: Vec<bool> = (0..7).map(|_| c.note()).collect();
    assert_eq!(due, vec![false, false, true, false, false, true, false]);
    // A threshold of 0 is due at every event.
    let mut c = RetrainCounter::new(0);
    assert!(c.note());
    assert!(c.note());
}
