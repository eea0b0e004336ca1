//! Requests to the daemon and what the client shows of the answers.
use neuralfs::cli::{
    download, message_or_error, print_lines, print_open, print_reindex, print_results,
    print_status, request_for, retry_delay, saved_text, Command, Download,
};
use neuralfs::classifier::Classifier;
use neuralfs::config::Config;
use neuralfs::fs::{FileData, Filesystem, FsInfo, Step};
use neuralfs::ipc::{
    bad_request, bench_payload, decode_text, encode_payload, finish_bench, finish_hook,
    finish_info, finish_read, finish_reindex, finish_scrub, is_blank, refuse_hook, strip_verbatim,
    Context, Hook, Outcome, MAX_IPC_BYTES,
};
use neuralfs::protocol::{Request, Response, ScoredPath};
use neuralfs::sorted::SortedMap;
use neuralfs::state::DaemonState;
use neuralfs::store::{FileEntry, Store};

const NOW: i64 = 1_700_000_000;

fn daemon() -> DaemonState {
    let vfs = Filesystem::open(None, SortedMap::new(), 0, NOW).unwrap();
    DaemonState::new(Store::new(), vfs, Config::initial(Some("/home".into())))
}

fn context(clock: u64) -> Context {
    Context {
        now: NOW,
        clock,
        lambda_text: "0.1".into(),
        lambda: Err("invalid float literal".into()),
        hit_rate: "62.5%".into(),
    }
}

fn handle(d: &mut DaemonState, req: Request) -> Outcome {
    assert!(d.can_handle(&req));
    d.handle_request(req, context(0))
}

fn reply(d: &mut DaemonState, req: Request) -> Response {
    match handle(d, req) {
        Outcome::Reply(r) => r,
        _ => panic!("more work than an answer"),
    }
}

fn lines(r: Response) -> Vec<String> {
    assert!(r.error.is_none());
    r.lines.unwrap()
}

fn scored(path: &str, score: f64) -> ScoredPath {
    ScoredPath {
        path: path.to_string(),
        score: score.to_bits(),
    }
}

fn write(d: &mut DaemonState, path: &str, data: &[u8]) -> Response {
    let req = Request::FsWrite {
        path: path.into(),
        data_b64: encode_payload(&data.to_vec()),
    };
    match handle(d, req) {
        Outcome::WriteFile { path, data } => d.finish_write(&path, &data, NOW),
        _ => panic!("a write has to be carried out"),
    }
}

#[test]
fn base64_is_the_standard_alphabet() {
    assert_eq!(encode_payload(&b"hello".to_vec()), "aGVsbG8=");
    assert_eq!(decode_text("aGVsbG8="), Ok(b"hello".to_vec()));
    assert_eq!(encode_payload(&vec![0xfb, 0xff]), "+/8=");
    assert!(decode_text("not base64!").is_err());
}

#[test]
fn an_upload_can_be_downloaded() {
    let mut d = daemon();
    let r = write(&mut d, "/a/b", b"payload");
    assert_eq!(r.ok, Some(true));
    assert_eq!(r.message.unwrap(), "wrote 7 bytes");
    let outcome = handle(&mut d, Request::FsRead { path: "/a/b".into() });
    let mut job = match outcome {
        Outcome::ReadFile(job) => job,
        _ => panic!("a read has to be carried out"),
    };
    assert!(matches!(d.vfs.fetch(&mut job), Ok(Step::Complete)));
    let r = finish_read(&job.finish());
    match download(&r) {
        Download::Content(bytes) => assert_eq!(bytes, b"payload"),
        _ => panic!("the content comes back"),
    }
}

#[test]
fn bad_payloads_are_refused() {
    let mut d = daemon();
    let r = reply(
        &mut d,
        Request::FsWrite {
            path: "/a".into(),
            data_b64: "*".into(),
        },
    );
    assert!(r.error.unwrap().starts_with("bad base64: "));
    let big = vec![0u8; MAX_IPC_BYTES + 1];
    let r = reply(
        &mut d,
        Request::FsWrite {
            path: "/a".into(),
            data_b64: encode_payload(&big),
        },
    );
    assert_eq!(r.error.unwrap(), "payload exceeds 16 MiB IPC limit");
    let r = finish_read(&big);
    assert_eq!(
        r.error.unwrap(),
        "file exceeds 16 MiB IPC limit; too large to read over IPC"
    );
}

#[test]
fn refused_operations_are_answered_with_the_reason() {
    let mut d = daemon();
    assert_eq!(
        write(&mut d, "/", b"x").error.unwrap(),
        "cannot write to root"
    );
    let r = reply(&mut d, Request::FsRead { path: "/no".into() });
    assert_eq!(r.error.unwrap(), "no such path component: no");
    let r = reply(&mut d, Request::FsRm { path: "/no".into() });
    assert_eq!(r.error.unwrap(), "no such entry: no");
    let r = reply(&mut d, Request::FsRollback { name: "s".into() });
    assert_eq!(r.error.unwrap(), "no such snapshot: s");
}

#[test]
fn directories_are_listed_with_their_kinds() {
    let mut d = daemon();
    let r = reply(&mut d, Request::FsLs { path: "/".into() });
    assert_eq!(lines(r), vec!["(empty)"]);
    let r = reply(&mut d, Request::FsMkdir { path: "/d".into() });
    assert_eq!(r.message.unwrap(), "created directory /d");
    write(&mut d, "/f", b"12");
    let r = reply(&mut d, Request::FsLs { path: "/".into() });
    assert_eq!(lines(r), vec!["dir   d", "file  f"]);
    let r = reply(&mut d, Request::FsStat { path: "/f".into() });
    assert_eq!(
        lines(r),
        vec![
            "kind:    file",
            "size:    2 bytes",
            "blocks:  0",
            "entries: 0",
            "mtime:   1700000000"
        ]
    );
    let r = reply(&mut d, Request::FsRm { path: "/d".into() });
    assert_eq!(r.message.unwrap(), "removed /d");
}

#[test]
fn snapshots_over_requests() {
    let mut d = daemon();
    let r = reply(&mut d, Request::FsSnapshots);
    assert_eq!(lines(r), vec!["(no snapshots)"]);
    write(&mut d, "/f", b"1");
    let r = reply(&mut d, Request::FsSnapshot { name: "s1".into() });
    assert_eq!(r.message.unwrap(), "snapshot 's1' created");
    let r = reply(&mut d, Request::FsSnapshots);
    assert_eq!(lines(r), vec!["s1  (txg 1)"]);
    let r = reply(&mut d, Request::FsRollback { name: "s1".into() });
    assert_eq!(r.message.unwrap(), "rolled back to snapshot 's1'");
}

#[test]
fn a_repeated_query_is_served_from_the_cache() {
    let mut d = daemon();
    let ask = || Request::Find { query: "q".into() };
    match d.handle_request(ask(), context(10)) {
        Outcome::Search { query, opening } => {
            assert_eq!(query, "q");
            assert!(!opening);
        }
        _ => panic!("nothing is cached yet"),
    }
    let found = vec![scored("/x", 0.5), scored("/y", 1.5)];
    let r = d.finish_find("q".into(), &found, true, 10);
    let first: Vec<String> = r.results.unwrap().into_iter().map(|p| p.path).collect();
    assert_eq!(first, vec!["/y", "/x"]);
    match d.handle_request(ask(), context(20)) {
        Outcome::Reply(r) => {
            let again: Vec<String> = r.results.unwrap().into_iter().map(|p| p.path).collect();
            assert_eq!(again, first);
        }
        _ => panic!("the answer is cached"),
    }
}

#[test]
fn opening_counts_the_access() {
    let mut d = daemon();
    d.store.upsert(FileEntry {
        path: "/x/f".into(),
        file_name: "f".into(),
        extension: String::new(),
        parent: "/x".into(),
        size: 0,
        modified: 0,
        depth: 0,
        freq: 4,
        last_open: 1,
    });
    let r = d.finish_open(&vec![scored("/x/f", 1.0)], false, NOW);
    assert_eq!(r.opened_path.unwrap(), "/x/f");
    let e = &d.store.all_entries()[0];
    assert_eq!((e.freq, e.last_open), (5, NOW));
    let r = d.finish_open(&vec![], false, NOW);
    assert_eq!(r.error.unwrap(), "no match found");
}

#[test]
fn status_and_settings_over_requests() {
    let mut d = daemon();
    let r = reply(&mut d, Request::Status);
    assert_eq!(r.status.unwrap(), "running");
    assert_eq!(r.indexed_files, Some(0));
    assert!(r.last_retrain.is_none());
    let get = |key: &str| Request::ConfigGet { key: key.into() };
    assert_eq!(reply(&mut d, get("lambda")).message.unwrap(), "0.1");
    assert_eq!(
        reply(&mut d, get("colour")).error.unwrap(),
        "unknown key: colour"
    );
    let set = |key: &str, value: &str| Request::ConfigSet {
        key: key.into(),
        value: value.into(),
    };
    match handle(&mut d, set("max_results", "5")) {
        Outcome::SaveConfig(r) => assert_eq!(r.message.unwrap(), "max_results = 5"),
        _ => panic!("the configuration has to be saved"),
    }
    assert_eq!(d.config.max_results, 5);
    let r = reply(&mut d, set("lambda", "x"));
    assert_eq!(r.error.unwrap(), "invalid float literal");
}

#[test]
fn hooks_add_a_root() {
    let mut d = daemon();
    assert_eq!(d.hook_root("\\\\?\\C:\\data"), ("C:\\data".to_string(), true));
    assert_eq!(d.hook_root("C:\\data"), ("C:\\data".to_string(), false));
    let r = reply(&mut d, Request::HookStatus);
    assert_eq!(
        lines(r),
        vec![
            "indexed files: 0",
            "hooked directories:",
            "  /home",
            "  C:\\data"
        ]
    );
    match d.hook("sub", false, None) {
        Hook::Refused(r) => assert_eq!(r.error.unwrap(), "not a directory: sub"),
        Hook::Index { .. } => panic!("there is no such directory"),
    }
    match d.hook("sub", true, Some("C:\\data".into())) {
        Hook::Index { root, save } => assert_eq!((root.as_str(), save), ("C:\\data", false)),
        Hook::Refused(_) => panic!("it is a directory"),
    }
    assert_eq!(finish_hook("/x", 3).retrains, 1);
    assert_eq!(strip_verbatim("/plain"), "/plain");
    assert_eq!(refuse_hook("/x").error.unwrap(), "not a directory: /x");
    assert_eq!(
        finish_hook("/x", 3).response.message.unwrap(),
        "hooked onto /x — indexed 3 files, learning enabled"
    );
    match handle(&mut d, Request::Reindex) {
        Outcome::Reindex(roots) => assert_eq!(roots, vec!["/home", "C:\\data"]),
        _ => panic!("the roots have to be walked"),
    }
    assert_eq!(finish_reindex(9).message.unwrap(), "reindexed 9 files");
}

#[test]
fn the_model_is_reported() {
    let mut d = daemon();
    let r = reply(&mut d, Request::Ai);
    assert_eq!(
        lines(r),
        vec![
            "trained:        false",
            "model version:  0",
            "online updates: 0",
            "saved version:  0",
            "classes (dirs): 0",
            "vocabulary:     0",
            "last full train: never"
        ]
    );
    assert!(!d.needs_checkpoint());
    d.saved_version = 7;
    assert!(d.needs_checkpoint());
}

#[test]
fn caches_are_reported() {
    let mut d = daemon();
    let v = lines(reply(&mut d, Request::Cache));
    assert_eq!(v.len(), 16);
    assert_eq!(v[0], "block cache:");
    assert_eq!(v[1], "  capacity:   1073741824 bytes");
    assert_eq!(v[5], "  hit rate:   62.5%");
    assert_eq!(v[9], "  ttl:        300 s");
}

#[test]
fn collecting_garbage_over_requests() {
    let mut d = daemon();
    write(&mut d, "/big", &vec![1u8; 10_000]);
    write(&mut d, "/big", b"small now");
    let live = match handle(&mut d, Request::FsGc) {
        Outcome::Gc(live) => live,
        _ => panic!("the log has to be rewritten"),
    };
    assert_eq!(live.len(), 0);
    assert_eq!(d.vfs.gc_reads(&live).len(), 0);
    let text = print_lines(&d.finish_gc(&live)).join("\n");
    assert!(text.contains("10000"));
    assert_eq!(d.vfs.info().unwrap().reclaimable_bytes, 0);
}

#[test]
fn volume_reports() {
    let info = FsInfo {
        txg: 1,
        files: 2,
        dirs: 3,
        unique_blocks: 4,
        logical_bytes: 5,
        referenced_bytes: 6,
        physical_referenced: 7,
        physical_total: 8,
        reclaimable_bytes: 9,
    };
    assert_eq!(
        lines(finish_info(&info, "1.50")),
        vec![
            "transaction (txg):   1",
            "files:               2",
            "directories:         3",
            "unique blocks:       4",
            "logical bytes:       5",
            "physical (live):     7",
            "physical (total):    8",
            "reclaimable bytes:   9",
            "dedup ratio:         1.50x"
        ]
    );
    assert_eq!(
        lines(finish_scrub(2, &vec![])),
        vec!["scrubbed 2 blocks", "no errors — all checksums valid"]
    );
    assert_eq!(
        lines(finish_scrub(2, &vec!["ab".into()])),
        vec!["scrubbed 2 blocks", "1 CORRUPT block(s):", "ab"]
    );
}

#[test]
fn a_benchmark_moves_distinct_blocks() {
    let mut d = daemon();
    let mb = |n: usize| Request::Bench { mb: n };
    assert!(matches!(handle(&mut d, mb(0)), Outcome::Bench { mb: 1 }));
    assert!(matches!(handle(&mut d, mb(9999)), Outcome::Bench { mb: 1024 }));
    let p = bench_payload(4);
    assert_eq!(p.len(), 4 * 1024 * 1024);
    assert_eq!(p[..8], [0xad, 0x4d, 0xf3, 0x0b, 0xae, 0x77, 0x1b, 0xdc]);
    assert_eq!(p[8..16], [0x76, 0x60, 0x6e, 0x02, 0xb9, 0xee, 0xf0, 0x64]);
    let data = FileData::new(&p);
    assert!(d.vfs.can_store(&data));
    d.vfs.write_file("/_bench/data.bin", &data, NOW).unwrap();
    assert_eq!(d.vfs.info().unwrap().unique_blocks, 64);
    assert_eq!(
        lines(finish_bench(4, "1 s", "2 s", 4_194_304)),
        vec![
            "payload:        4 MiB (4194304 bytes, unique blocks)",
            "write:          1 s",
            "read+verify:    2 s",
            "integrity:      verified"
        ]
    );
    assert_eq!(
        lines(finish_bench(1, "", "", 1))[3],
        "integrity:      MISMATCH"
    );
}

#[test]
fn connecting_is_tried_five_times() {
    let mut delays = Vec::new();
    let mut attempt = 0;
    while let Some(ms) = retry_delay(attempt) {
        delays.push(ms);
        attempt += 1;
    }
    assert_eq!(delays, vec![50, 100, 150, 200, 250]);
}

#[test]
fn a_new_classifier_has_a_higher_version() {
    let mut d = daemon();
    assert_eq!(d.classifier.version(), 0);
    d.adopt(Classifier::untrained());
    assert_eq!(d.classifier.version(), 1);
    // Learning in between counts too.
    d.classifier.note_update();
    let learned = d.classifier.version();
    d.adopt(Classifier::untrained());
    assert_eq!(d.classifier.version(), learned + 1);
    assert_eq!(d.classifier.online_updates(), 0);
}

#[test]
fn blank_and_garbled_lines() {
    assert!(is_blank("  \t"));
    assert!(is_blank(""));
    assert!(!is_blank(" {"));
    assert_eq!(
        bad_request("expected value").error.unwrap(),
        "bad request: expected value"
    );
}

#[test]
fn commands_become_requests() {
    let words = vec!["tax".to_string(), "2020".to_string()];
    match request_for(Command::Find {
        query: words.clone(),
    }) {
        Request::Find { query } => assert_eq!(query, "tax 2020"),
        _ => panic!("a find"),
    }
    match request_for(Command::Open { query: words }) {
        Request::Open { query } => assert_eq!(query, "tax 2020"),
        _ => panic!("an open"),
    }
    match request_for(Command::FsWrite {
        vpath: "/v".into(),
        data: b"hello".to_vec(),
    }) {
        Request::FsWrite { path, data_b64 } => {
            assert_eq!(path, "/v");
            assert_eq!(data_b64, "aGVsbG8=");
        }
        _ => panic!("a write"),
    }
    assert!(matches!(
        request_for(Command::Hook { dir: None }),
        Request::HookStatus
    ));
    assert!(matches!(
        request_for(Command::Hook {
            dir: Some("/d".into())
        }),
        Request::Hook { .. }
    ));
    assert!(matches!(request_for(Command::FsGc), Request::FsGc));
    assert!(matches!(request_for(Command::Cache), Request::Cache));
    assert!(matches!(
        request_for(Command::Bench { mb: 64 }),
        Request::Bench { mb: 64 }
    ));
}

#[test]
fn answers_are_shown() {
    let ok = Response::ok("done".into());
    let bad = Response::error("broken".into());
    let empty = Response::empty();
    assert_eq!(message_or_error(&ok), "done");
    assert_eq!(message_or_error(&bad), "broken");
    assert_eq!(message_or_error(&empty), "unknown error");
    assert_eq!(print_lines(&bad), vec!["error: broken"]);
    assert_eq!(print_lines(&ok), vec!["done"]);
    let two = Response::lines(vec!["a".into(), "b".into()]);
    assert_eq!(print_lines(&two), vec!["a", "b"]);
    assert_eq!(print_results(&bad).unwrap(), "error: broken");
    assert_eq!(print_results(&empty).unwrap(), "no matches found");
    let mut found = Response::empty();
    found.results = Some(vec![scored("/x", 1.0)]);
    assert!(print_results(&found).is_none());
    assert_eq!(print_reindex(&empty), "reindex triggered");
    assert_eq!(
        print_status(&empty),
        vec!["status: unknown", "indexed_files: 0", "last_retrain: never"]
    );
    let mut opened = Response::empty();
    opened.opened_path = Some("/x".into());
    assert_eq!(
        print_open(&opened),
        ("opening /x".to_string(), Some("/x".to_string()))
    );
    assert_eq!(print_open(&empty), ("no match found".to_string(), None));
    assert_eq!(saved_text(7, "/tmp/f"), "wrote 7 bytes to /tmp/f");
}

#[test]
fn downloads_can_fail() {
    match download(&Response::error("gone".into())) {
        Download::Refused(why) => assert_eq!(why, "error: gone"),
        _ => panic!("the daemon refused"),
    }
    let mut r = Response::empty();
    r.data_b64 = Some("*".into());
    assert!(matches!(download(&r), Download::Garbled(_)));
    match download(&Response::empty()) {
        Download::Content(bytes) => assert_eq!(bytes.len(), 0),
        _ => panic!("nothing is an empty file"),
    }
}
