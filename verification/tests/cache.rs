//! The RAM tier: a strict cap in bytes and a segmented eviction policy.
use neuralfs::cache::RamCache;
use std::sync::Arc;

fn block(n: usize) -> Arc<Vec<u8>> {
    Arc::new(vec![0u8; n])
}

fn key(n: u64) -> Vec<u8> {
    n.to_be_bytes().to_vec()
}

fn name(s: &str) -> Vec<u8> {
    s.as_bytes().to_vec()
}

#[test]
fn strict_cap_is_never_exceeded() {
    let mut c = RamCache::new(10 * 1024 * 1024); // 10 MiB
    for i in 0..100u64 {
        c.insert(key(i), block(1024 * 1024)); // 100 x 1 MiB
        assert!(
            c.stats().resident_bytes <= 10 * 1024 * 1024,
            "cap exceeded at {i}: {}",
            c.stats().resident_bytes
        );
    }
    assert!(c.stats().entries <= 10);
}

#[test]
fn frequently_read_value_survives_eviction() {
    let mut c = RamCache::new(5 * 1024 * 1024);
    c.insert(name("hot"), block(1024 * 1024));
    // Read it again: this promotes it to the protected segment.
    assert!(c.get(b"hot").is_some());

    // Now stream a lot of cold, once-touched data through probation.
    for i in 0..30u64 {
        c.insert(name(&format!("cold{i}")), block(1024 * 1024));
    }

    // The hot block, promoted by frequency, is still resident...
    assert!(c.get(b"hot").is_some(), "hot value was evicted");
    // ...while an early cold block has been pushed out.
    assert!(!c.contains(b"cold0"));
}

#[test]
fn hit_and_miss_accounting() {
    let mut c = RamCache::new(1024 * 1024);
    assert!(c.get(&key(1)).is_none()); // miss
    c.insert(key(1), block(1024));
    assert!(c.get(&key(1)).is_some()); // hit
    let s = c.stats();
    assert_eq!(s.hits, 1);
    assert_eq!(s.misses, 1);
    let hit_rate = s.hits as f64 / (s.hits + s.misses) as f64;
    assert!((hit_rate - 0.5).abs() < 1e-9);
}

#[test]
fn value_larger_than_cap_does_not_stick() {
    let mut c = RamCache::new(1024 * 1024);
    c.insert(key(1), block(4 * 1024 * 1024)); // 4 MiB into a 1 MiB cache
    assert!(c.stats().resident_bytes <= 1024 * 1024);
    assert!(!c.contains(&key(1)));
}

#[test]
fn a_cached_value_comes_back_as_it_was_put() {
    let mut c = RamCache::new(100);
    c.insert(name("a"), Arc::new(vec![1, 2, 3]));
    c.insert(name("b"), Arc::new(vec![4]));
    assert_eq!(*c.get(b"a").unwrap(), vec![1, 2, 3]);
    assert_eq!(*c.get(b"b").unwrap(), vec![4]);
    c.insert(name("a"), Arc::new(vec![9]));
    assert_eq!(*c.get(b"a").unwrap(), vec![9]);
}

#[test]
fn the_oldest_probation_entry_leaves_first() {
    let mut c = RamCache::new(3);
    c.insert(name("a"), block(1));
    c.insert(name("b"), block(1));
    c.insert(name("c"), block(1));
    c.insert(name("d"), block(1));
    assert!(!c.contains(b"a"));
    assert!(c.contains(b"b"));
    assert!(c.contains(b"c"));
    assert!(c.contains(b"d"));
    let s = c.stats();
    assert_eq!(s.evictions, 1);
    assert_eq!(s.entries, 3);
    assert_eq!(s.probation_entries, 3);
    assert_eq!(s.resident_bytes, 3);
    assert_eq!(s.cap_bytes, 3);
}

#[test]
fn a_second_touch_promotes_once() {
    let mut c = RamCache::new(10);
    c.insert(name("a"), block(1));
    assert_eq!(c.stats().protected_entries, 0);
    c.get(b"a");
    assert_eq!(c.stats().protected_entries, 1);
    assert_eq!(c.stats().promotions, 1);
    c.get(b"a");
    assert_eq!(c.stats().promotions, 1);
    assert_eq!(c.stats().hits, 2);
}

#[test]
fn a_full_protected_segment_demotes_its_oldest() {
    // Four fifths of the cap are protected: 8 of 10 bytes.
    let mut c = RamCache::new(10);
    c.insert(name("a"), block(4));
    c.get(b"a");
    c.insert(name("b"), block(4));
    c.get(b"b");
    assert_eq!(c.stats().protected_entries, 2);
    c.insert(name("c"), block(2));
    c.get(b"c");
    // `a` made room for `c` and is on probation again, still resident.
    assert_eq!(c.stats().protected_entries, 2);
    assert_eq!(c.stats().probation_entries, 1);
    assert!(c.contains(b"a"));
    // The next insertion pushes `a` out of the cache.
    c.insert(name("d"), block(1));
    assert!(!c.contains(b"a"));
}

#[test]
fn new_data_is_let_in() {
    let mut c = RamCache::new(10);
    for n in 0..5u8 {
        // Everything is read twice, so that the protected segment fills up.
        c.insert(vec![n], block(2));
        assert!(c.get(&[n]).is_some());
    }
    c.insert(name("new"), block(2));
    assert!(c.get(b"new").is_some());
    assert!(c.stats().resident_bytes <= 10);
}

#[test]
fn any_budget_will_do() {
    let mut c = RamCache::new(u64::MAX);
    c.insert(name("a"), block(10));
    c.insert(name("a"), block(20));
    assert_eq!(c.stats().resident_bytes, 20);
    assert!(c.get(b"a").is_some());
}

#[test]
fn invalidate_and_clear_forget_entries() {
    let mut c = RamCache::new(100);
    c.insert(name("a"), block(10));
    c.insert(name("b"), block(10));
    c.get(b"b");
    c.invalidate(b"a");
    assert!(!c.contains(b"a"));
    assert_eq!(c.stats().resident_bytes, 10);
    c.invalidate(b"b");
    assert_eq!(c.stats().resident_bytes, 0);
    c.insert(name("a"), block(10));
    c.clear();
    assert_eq!(c.stats().entries, 0);
    assert_eq!(c.stats().resident_bytes, 0);
    assert!(c.get(b"a").is_none());
}
