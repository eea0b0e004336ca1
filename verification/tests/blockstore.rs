//! Content addresses, the data log, integrity checks and compaction.
use neuralfs::blockstore::{
    dec, enc, hash_bytes, hash_hex, log_record, same_hash, Block, BlockStore, Extent, Lookup, Refusal,
};
use neuralfs::sorted::SortedMap;

fn store() -> BlockStore {
    BlockStore::open(SortedMap::new(), 0, 1 << 20).unwrap()
}

fn put(s: &mut BlockStore, log: &mut Vec<u8>, bytes: &[u8]) -> Block {
    let b = Block::new(bytes);
    let blocks = vec![Block::new(bytes)];
    let (at, tail) = s.log_tail(&blocks);
    assert_eq!(at, log.len() as u64);
    log.extend_from_slice(&tail);
    s.put(&b);
    b
}

fn slice(log: &[u8], e: Extent) -> Vec<u8> {
    log[e.offset as usize..e.offset as usize + e.len as usize].to_vec()
}

#[test]
fn addresses_are_blake3_digests() {
    assert_eq!(
        hash_hex(&hash_bytes(b"")),
        "af1349b9f5f9a1a6a0404dea36dcc9499bcb25c9adc112b7cc9a93cae41f3262"
    );
    assert_eq!(hash_bytes(b"abc"), *blake3::hash(b"abc").as_bytes());
    assert_eq!(Block::new(b"abc").hash(), hash_bytes(b"abc"));
    assert!(same_hash(&hash_bytes(b"abc"), &hash_bytes(b"abc")));
    assert!(!same_hash(&hash_bytes(b"abc"), &hash_bytes(b"abd")));
}

#[test]
fn hex_is_two_lower_case_digits_a_byte() {
    let mut h = [0u8; 32];
    h[0] = 0x0f;
    h[1] = 0xa0;
    let s = hash_hex(&h);
    assert_eq!(s.len(), 64);
    assert!(s.starts_with("0fa00"));
}

#[test]
fn index_entries_round_trip() {
    let b = enc(0x0102_0304_0506_0708, 0x0a0b_0c0d);
    assert_eq!(b, [8, 7, 6, 5, 4, 3, 2, 1, 0x0d, 0x0c, 0x0b, 0x0a]);
    assert_eq!(dec(&b), (0x0102_0304_0506_0708, 0x0a0b_0c0d));
}

#[test]
fn a_record_is_a_length_and_the_bytes() {
    assert_eq!(log_record(b"abc"), vec![3, 0, 0, 0, b'a', b'b', b'c']);
    assert_eq!(log_record(b""), vec![0, 0, 0, 0]);
}

#[test]
fn a_stored_block_can_be_found_in_the_log() {
    let mut s = store();
    let mut log = Vec::new();
    let a = put(&mut s, &mut log, b"first");
    let b = put(&mut s, &mut log, b"second!");
    assert_eq!(s.extent(&a.hash()), Some(Extent { offset: 4, len: 5 }));
    assert_eq!(s.extent(&b.hash()), Some(Extent { offset: 13, len: 7 }));
    assert_eq!(slice(&log, s.extent(&a.hash()).unwrap()), b"first");
    assert_eq!(s.len_for(&b.hash()), 7);
    assert_eq!(s.len_for(&hash_bytes(b"other")), 0);
    assert_eq!(s.block_count(), 2);
    assert_eq!(s.physical_bytes(), 12);
}

#[test]
fn an_identical_block_is_stored_once() {
    let mut s = store();
    let mut log = Vec::new();
    put(&mut s, &mut log, b"same");
    let before = log.len();
    put(&mut s, &mut log, b"same");
    assert_eq!(log.len(), before);
    assert_eq!(s.block_count(), 1);
    // Twice in one go, too.
    let twice = vec![Block::new(b"new"), Block::new(b"new")];
    assert_eq!(s.log_tail(&twice).1, log_record(b"new"));
}

#[test]
fn a_lookup_says_where_the_bytes_are() {
    let mut s = store();
    let mut log = Vec::new();
    let a = put(&mut s, &mut log, b"bytes");
    match s.lookup(&a.hash()) {
        Lookup::Cached(v) => assert_eq!(*v, b"bytes".to_vec()),
        _ => panic!("a block that was just put is cached"),
    }
    assert!(matches!(s.lookup(&hash_bytes(b"none")), Lookup::Missing));

    // Opened again, the store has to read the log.
    let mut index = SortedMap::new();
    for (h, e) in s.extents() {
        index.insert(h, e);
    }
    let mut s = BlockStore::open(index, log.len() as u64, 1 << 20).unwrap();
    match s.lookup(&a.hash()) {
        Lookup::OnDisk(e) => {
            let got = s.accept(&a.hash(), slice(&log, e)).unwrap();
            assert_eq!(*got, b"bytes".to_vec());
        }
        _ => panic!("nothing is cached yet"),
    }
    assert!(matches!(s.lookup(&a.hash()), Lookup::Cached(_)));
}

#[test]
fn wrong_bytes_are_not_accepted() {
    let mut s = store();
    let mut log = Vec::new();
    let a = put(&mut s, &mut log, b"bytes");
    match s.accept(&a.hash(), b"bytez".to_vec()) {
        Err(Refusal::Corrupt(actual)) => assert_eq!(actual, hash_bytes(b"bytez")),
        Err(Refusal::NotStored) => panic!("the block is stored"),
        Ok(_) => panic!("the digest does not match"),
    }
}

#[test]
fn an_unstored_block_is_refused() {
    let mut s = store();
    let mut log = Vec::new();
    put(&mut s, &mut log, b"bytes");
    let other = hash_bytes(b"other");
    assert!(matches!(s.lookup(&other), Lookup::Missing));
    // Not even the right bytes are taken.
    assert!(matches!(
        s.accept(&other, b"other".to_vec()),
        Err(Refusal::NotStored)
    ));
    assert!(matches!(s.lookup(&other), Lookup::Missing));
}

#[test]
fn new_content_is_counted_once() {
    let mut s = store();
    let mut log = Vec::new();
    put(&mut s, &mut log, b"bytes");
    assert_eq!((s.block_count(), s.physical_bytes()), (1, 5));
    put(&mut s, &mut log, b"bytes");
    assert_eq!((s.block_count(), s.physical_bytes()), (1, 5));
    put(&mut s, &mut log, b"more");
    assert_eq!((s.block_count(), s.physical_bytes()), (2, 9));
    assert_eq!(log.len(), 4 + 5 + 4 + 4);
}

#[test]
fn scrub_lists_damaged_and_unreadable_blocks() {
    let mut s = store();
    let mut log = Vec::new();
    let good = put(&mut s, &mut log, b"good");
    let bad = put(&mut s, &mut log, b"bad");
    let lost = put(&mut s, &mut log, b"lost");
    let mut job = s.scrub();
    while let Some(e) = job.next_read() {
        if Some(e) == s.extent(&lost.hash()) {
            job.check(None);
        } else if Some(e) == s.extent(&bad.hash()) {
            job.check(Some(b"BAD".to_vec()));
        } else {
            assert_eq!(Some(e), s.extent(&good.hash()));
            job.check(Some(slice(&log, e)));
        }
    }
    let (checked, mut found) = job.finish();
    assert_eq!(checked, 3);
    found.sort();
    let mut want = vec![hash_hex(&bad.hash()), hash_hex(&lost.hash())];
    want.sort();
    assert_eq!(found, want);
}

#[test]
fn compaction_keeps_the_live_blocks() {
    let mut s = store();
    let mut log = Vec::new();
    let a = put(&mut s, &mut log, b"alpha");
    let b = put(&mut s, &mut log, b"beta");
    let c = put(&mut s, &mut log, b"gamma");
    let mut live = SortedMap::new();
    live.insert(a.hash(), ());
    live.insert(c.hash(), ());
    let mut new_log = Vec::new();
    for (_, e) in s.compaction_reads(&live) {
        new_log.extend_from_slice(&log_record(&slice(&log, e)));
    }
    let stats = s.compact(&live);
    assert_eq!(
        (stats.kept_blocks, stats.dropped_blocks, stats.bytes_reclaimed),
        (2, 1, 4)
    );
    assert_eq!(slice(&new_log, s.extent(&a.hash()).unwrap()), b"alpha");
    assert_eq!(slice(&new_log, s.extent(&c.hash()).unwrap()), b"gamma");
    assert_eq!(s.extent(&b.hash()), None);
    assert!(matches!(s.lookup(&b.hash()), Lookup::Missing));
    // What is kept stays in RAM.
    assert!(matches!(s.lookup(&a.hash()), Lookup::Cached(_)));
}

#[test]
fn a_store_knows_its_room() {
    let s = BlockStore::open(SortedMap::new(), u64::MAX - 10, 1 << 20).unwrap();
    assert!(s.has_room(10));
    assert!(!s.has_room(11));
}
