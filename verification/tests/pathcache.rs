//! Answers to repeated queries, each alive for a while after its last use.
use neuralfs::pathcache::{PathTtlCache, DEFAULT_CAP_BYTES, DEFAULT_TTL};
use neuralfs::protocol::ScoredPath;

const SEC: u64 = 1_000_000_000;

fn p(path: &str) -> ScoredPath {
    ScoredPath {
        path: path.to_string(),
        score: 1.0f64.to_bits(),
    }
}

#[test]
fn hit_then_expire() {
    let mut c = PathTtlCache::new(300 * SEC, DEFAULT_CAP_BYTES);
    let t0 = 17 * SEC;
    c.insert("report".into(), vec![p("C:/a/report.txt")], t0);

    // Within the window -> hit.
    assert!(c.get("report", t0 + 60 * SEC).is_some());
    // Past the (un-refreshed-from-t0) window -> but we DID refresh at +60s,
    // so expiry is now t0+360s. At t0+300s it is still alive.
    assert!(c.get("report", t0 + 300 * SEC).is_some());
    // Long after the last access -> expired.
    assert!(c.get("report", t0 + 700 * SEC).is_none());
}

#[test]
fn timer_refreshes_on_repeat_query() {
    let mut c = PathTtlCache::new(300 * SEC, DEFAULT_CAP_BYTES);
    let t0 = 17 * SEC;
    c.insert("q".into(), vec![p("/x")], t0);

    // Keep querying every 4 minutes; each refreshes the 5-minute timer, so
    // it never dies despite total elapsed time far exceeding 5 minutes.
    let mut now = t0;
    for _ in 0..10 {
        now += 240 * SEC;
        assert!(c.get("q", now).is_some(), "evaporated at {:?}", now - t0);
    }
}

#[test]
fn sweep_reclaims_expired() {
    let mut c = PathTtlCache::new(300 * SEC, DEFAULT_CAP_BYTES);
    let t0 = 17 * SEC;
    c.insert("a".into(), vec![p("/a")], t0);
    c.insert("b".into(), vec![p("/b")], t0);
    assert_eq!(c.stats().entries, 2);
    c.sweep(t0 + 301 * SEC);
    assert_eq!(c.stats().entries, 0);
    assert_eq!(c.stats().resident_bytes, 0);
}

#[test]
fn strict_cap_enforced() {
    // ~1 KiB budget; each entry ~ path.len()+24+query+64.
    let mut c = PathTtlCache::new(300 * SEC, 2000);
    let t0 = 17 * SEC;
    for i in 0..200 {
        let big = "x".repeat(100);
        c.insert(format!("q{i}"), vec![p(&big)], t0 + i * SEC);
        assert!(
            c.stats().resident_bytes <= 2000,
            "cap exceeded: {}",
            c.stats().resident_bytes
        );
    }
}

#[test]
fn empty_results_not_cached() {
    let mut c = PathTtlCache::new(300 * SEC, DEFAULT_CAP_BYTES);
    let t0 = 17 * SEC;
    c.insert("nope".into(), vec![], t0);
    assert_eq!(c.stats().entries, 0);
}

#[test]
fn an_answer_is_weighed_exactly() {
    let mut c = PathTtlCache::new(DEFAULT_TTL, DEFAULT_CAP_BYTES);
    c.insert("né".into(), vec![p("/ab"), p("/c")], 0);
    // The query takes 3 bytes, the paths 3 and 2, with 24 each and 64 on top.
    assert_eq!(c.stats().resident_bytes, 3 + (3 + 24) + (2 + 24) + 64);
    assert_eq!(c.stats().ttl_secs, 300);
    assert_eq!(c.stats().cap_bytes, 500 * 1024 * 1024);
}

#[test]
fn an_entry_dies_at_the_end_of_its_window() {
    let mut c = PathTtlCache::new(300 * SEC, DEFAULT_CAP_BYTES);
    c.insert("q".into(), vec![p("/x")], 0);
    assert!(c.get("q", 300 * SEC - 1).is_some());
    c.insert("r".into(), vec![p("/x")], 0);
    assert!(c.get("r", 300 * SEC).is_none());
    let s = c.stats();
    assert_eq!((s.hits, s.misses, s.expired), (1, 1, 1));
}

#[test]
fn a_cached_answer_is_given_back() {
    let mut c = PathTtlCache::new(300 * SEC, DEFAULT_CAP_BYTES);
    c.insert("q".into(), vec![p("/x"), p("/y")], 0);
    let got = c.get("q", 1).unwrap();
    assert_eq!(got.len(), 2);
    assert_eq!(got[0].path, "/x");
    assert_eq!(got[1].path, "/y");
    assert_eq!(got[1].score, 1.0f64.to_bits());
    assert!(c.get("other", 1).is_none());
}

#[test]
fn the_answer_closest_to_its_end_leaves_first() {
    // Each entry weighs 2 + 24 + 1 + 64 = 91 bytes; two fit.
    let mut c = PathTtlCache::new(300 * SEC, 182);
    c.insert("a".into(), vec![p("/1")], 0);
    c.insert("b".into(), vec![p("/2")], SEC);
    c.get("a", 2 * SEC);
    c.insert("c".into(), vec![p("/3")], 3 * SEC);
    assert!(c.get("b", 4 * SEC).is_none());
    assert!(c.get("a", 4 * SEC).is_some());
    assert!(c.get("c", 4 * SEC).is_some());
    assert_eq!(c.stats().evictions, 1);
}
