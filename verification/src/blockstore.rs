//! A content-addressed, append-only, deduplicating block store.
//!
//! The store keeps the index of an append-only log and a RAM cache of block
//! data. The log itself is a file: [`BlockStore`] says which bytes are to be
//! appended to it and which are to be read from it, and checks what was read.

use std::sync::Arc;

use vstd::prelude::*;
use vstd::slice::slice_to_vec;

use crate::cache::{
    lemma_held_is_contained, lemma_inserted_holds, lemma_invalidated_holds, lemma_looked_up_holds,
    lemma_other_entries, total_bytes, CacheModel, CacheStats, RamCache,
};
use crate::codec::{
    from_le32, from_le64, law_le32_round_trip, law_le64_round_trip, le32, le64, u32_from_le,
    u32_le, u64_from_le, u64_le,
};
use crate::linked::distinct_keys;
use crate::order::OrderedKey;
use crate::sorted::{
    ascending, entries_of, lemma_entries_unique, lemma_finite_map_has_entries, lemma_map_of_entry,
    lemma_map_of_insert, lemma_map_of_key, lemma_map_of_push, lemma_place_for, map_of, SortedMap,
};
use crate::text::{hex_text, texts, to_hex};
use crate::tree::Fault;

verus! {

/// Logical block size. Files are split into chunks of at most this many bytes.
pub const BLOCK_SIZE: usize = 65_536;

/// A blake3 digest. Doubles as the content address (key) and the integrity
/// checksum of a block.
pub type Hash = [u8; 32];

/// The blake3 digest of a byte string.
pub uninterp spec fn digest(bytes: Seq<u8>) -> Seq<u8>;

/// `blake3::hash`: the digest depends on the bytes alone and is 32 bytes long.
#[verifier::external_body]
fn blake3_hash(bytes: &[u8]) -> (h: Hash)
    ensures
        h@ == digest(bytes@),
{
    *blake3::hash(bytes).as_bytes()
}

pub fn hash_bytes(bytes: &[u8]) -> (h: Hash)
    ensures
        h@ == digest(bytes@),
{
    blake3_hash(bytes)
}

/// Writes a digest as 64 lower-case hexadecimal digits.
pub fn hash_hex(h: &Hash) -> (s: String)
    ensures
        s@ == hex_text(h@),
{
    to_hex(h.as_slice())
}

/// Whether two digests are equal.
pub fn same_hash(a: &Hash, b: &Hash) -> (r: bool)
    ensures
        r == (a@ == b@),
{
    let mut i: usize = 0;
    while i < 32
        invariant
            i <= 32,
            forall|j: int| 0 <= j < i ==> a@[j] == b@[j],
        decreases 32 - i,
    {
        if a[i] != b[i] {
            return false;
        }
        i = i + 1;
    }
    assert(a@ =~= b@);
    true
}

/// Where the data of a block stands in the log.
#[derive(Debug, Clone, Copy, PartialEq, Eq)]
pub struct Extent {
    pub offset: u64,
    pub len: u32,
}

/// The bytes of an extent in a log.
pub open spec fn bytes_at(log: Seq<u8>, e: Extent) -> Seq<u8> {
    log.subrange(e.offset as int, e.offset + e.len)
}

/// The log record of a block: its length, then its data.
pub open spec fn record(bytes: Seq<u8>) -> Seq<u8> {
    le32(bytes.len() as u32) + bytes
}

/// The log record of a block.
pub fn log_record(bytes: &[u8]) -> (r: Vec<u8>)
    requires
        bytes@.len() <= u32::MAX,
    ensures
        r@ == record(bytes@),
{
    let header = u32_le(bytes.len() as u32);
    let mut r: Vec<u8> = Vec::new();
    r.extend_from_slice(header.as_slice());
    r.extend_from_slice(bytes);
    assert(r@ =~= record(bytes@));
    r
}

/// An index entry as it is stored: the offset, then the length, least
/// significant byte first.
pub fn enc(offset: u64, len: u32) -> (b: [u8; 12])
    ensures
        b@ == le64(offset) + le32(len),
{
    let o = u64_le(offset);
    let l = u32_le(len);
    let b = [o[0], o[1], o[2], o[3], o[4], o[5], o[6], o[7], l[0], l[1], l[2], l[3]];
    assert(b@ =~= le64(offset) + le32(len));
    b
}

/// Reads a stored index entry.
pub fn dec(v: &[u8]) -> (r: (u64, u32))
    requires
        v@.len() >= 12,
    ensures
        r.0 == from_le64(v@.subrange(0, 8)),
        r.1 == from_le32(v@.subrange(8, 12)),
{
    let o = vstd::slice::slice_subrange(v, 0, 8);
    let l = vstd::slice::slice_subrange(v, 8, 12);
    (u64_from_le(o), u32_from_le(l))
}

/// Decoding an encoded index entry gives the entry back.
pub proof fn law_index_entry_round_trip(offset: u64, len: u32)
    ensures
        from_le64((le64(offset) + le32(len)).subrange(0, 8)) == offset,
        from_le32((le64(offset) + le32(len)).subrange(8, 12)) == len,
{
    law_le64_round_trip(offset);
    law_le32_round_trip(len);
    assert((le64(offset) + le32(len)).subrange(0, 8) =~= le64(offset));
    assert((le64(offset) + le32(len)).subrange(8, 12) =~= le32(len));
}

/// A block's content with its address.
pub struct Block {
    hash: Hash,
    bytes: Arc<Vec<u8>>,
}

impl View for Block {
    type V = Seq<u8>;

    closed spec fn view(&self) -> Seq<u8> {
        self.bytes@
    }
}

impl Block {
    #[verifier::type_invariant]
    spec fn addressed(&self) -> bool {
        self.hash@ == digest(self.bytes@)
    }

    pub fn new(bytes: &[u8]) -> (b: Block)
        ensures
            b@ == bytes@,
    {
        let hash = hash_bytes(bytes);
        Block { hash, bytes: Arc::new(slice_to_vec(bytes)) }
    }

    /// The content address.
    pub fn hash(&self) -> (h: Hash)
        ensures
            h@ == digest(self@),
    {
        proof {
            use_type_invariant(self);
        }
        self.hash
    }

    pub fn len(&self) -> (n: usize)
        ensures
            n == self@.len(),
    {
        self.bytes.len()
    }

    fn data(&self) -> (d: Arc<Vec<u8>>)
        ensures
            d@ == self@,
    {
        self.bytes.clone()
    }
}

/// The bytes that the extents cover together.
pub open spec fn covered(s: Seq<(Seq<u8>, Extent)>) -> nat
    decreases s.len(),
{
    if s.len() == 0 {
        0
    } else {
        s[0].1.len as nat + covered(s.drop_first())
    }
}

proof fn lemma_covered_insert(s: Seq<(Seq<u8>, Extent)>, p: int, e: (Seq<u8>, Extent))
    requires
        0 <= p <= s.len(),
    ensures
        covered(s.insert(p, e)) == covered(s) + e.1.len,
    decreases s.len(),
{
    let t = s.insert(p, e);
    if p == 0 {
        assert(t.drop_first() =~= s);
    } else {
        lemma_covered_insert(s.drop_first(), p - 1, e);
        assert(t.drop_first() =~= s.drop_first().insert(p - 1, e));
    }
}

/// The state of a [`BlockStore`].
#[verifier::ext_equal]
pub struct BlocksModel {
    /// Where each stored block stands, by its address.
    pub index: Map<Seq<u8>, Extent>,
    pub log_len: nat,
    pub cache: CacheModel,
}

impl BlocksModel {
    /// The index entries in ascending order of their addresses.
    pub open spec fn entries(self) -> Seq<(Seq<u8>, Extent)> {
        entries_of::<Hash, Extent>(self.index)
    }

    /// The length of the block under `k`; 0 where there is none.
    pub open spec fn len_of(self, k: Seq<u8>) -> u32 {
        if self.index.contains_key(k) {
            self.index[k].len
        } else {
            0
        }
    }

    /// All block data, in bytes; record headers do not count.
    pub open spec fn physical(self) -> nat {
        covered(self.entries())
    }

    /// All block data with a record header for each block, in bytes.
    pub open spec fn framed(self) -> nat {
        covered(self.entries()) + 4 * self.entries().len()
    }

    /// The block `bytes` stored: nothing changes where an identical block is
    /// there already, else its record stands at the end of the log and its
    /// data is in the cache.
    pub open spec fn stored(self, bytes: Seq<u8>) -> BlocksModel {
        let k = digest(bytes);
        if self.index.contains_key(k) {
            self
        } else {
            BlocksModel {
                index: self.index.insert(
                    k,
                    Extent { offset: (self.log_len + 4) as u64, len: bytes.len() as u32 },
                ),
                log_len: self.log_len + 4 + bytes.len(),
                cache: self.cache.inserted(k, bytes),
            }
        }
    }

    /// What storing the block `bytes` appends to the log.
    pub open spec fn appended(self, bytes: Seq<u8>) -> Seq<u8> {
        if self.index.contains_key(digest(bytes)) {
            Seq::empty()
        } else {
            record(bytes)
        }
    }

    /// The first `n` of the blocks stored, one after the other.
    pub open spec fn stored_all(self, blocks: Seq<Seq<u8>>, n: int) -> BlocksModel
        decreases n,
    {
        if n <= 0 {
            self
        } else {
            self.stored_all(blocks, n - 1).stored(blocks[n - 1])
        }
    }

    /// What storing the first `n` of the blocks appends to the log.
    pub open spec fn appended_all(self, blocks: Seq<Seq<u8>>, n: int) -> Seq<u8>
        decreases n,
    {
        if n <= 0 {
            Seq::empty()
        } else {
            self.appended_all(blocks, n - 1) + self.stored_all(blocks, n - 1).appended(
                blocks[n - 1],
            )
        }
    }

    /// The log holds, for each index entry, bytes with that digest.
    pub open spec fn intact(self, log: Seq<u8>) -> bool {
        &&& log.len() == self.log_len
        &&& forall|k: Seq<u8>| #[trigger]
            self.index.contains_key(k) ==> {
                let e = self.index[k];
                &&& e.offset + e.len <= log.len()
                &&& digest(bytes_at(log, e)) == k
            }
    }

    /// The log holds, for each live block, bytes with its digest.
    pub open spec fn passes(self, log: Seq<u8>, live: Set<Seq<u8>>) -> bool {
        forall|k: Seq<u8>| #[trigger]
            self.index.contains_key(k) && live.contains(k) ==> {
                let e = self.index[k];
                &&& e.offset + e.len <= log.len()
                &&& digest(bytes_at(log, e)) == k
            }
    }

    /// No two different byte strings among the blocks, and none among them and
    /// those in the log and in the cache, have the same digest.
    pub open spec fn clash_free(self, log: Seq<u8>, blocks: Seq<Seq<u8>>) -> bool {
        &&& forall|i: int|
            0 <= i < blocks.len() && self.index.contains_key(digest(#[trigger] blocks[i]))
                ==> bytes_at(log, self.index[digest(blocks[i])]) == blocks[i]
        &&& forall|i: int, j: int|
            0 <= i < blocks.len() && 0 <= j < blocks.len() && digest(#[trigger] blocks[i])
                == digest(#[trigger] blocks[j]) ==> blocks[i] == blocks[j]
        &&& forall|i: int, v: Seq<u8>|
            0 <= i < blocks.len() && #[trigger] self.cache.holds(digest(#[trigger] blocks[i]), v)
                ==> v == blocks[i]
    }

    /// Every cached value has the digest under which it is cached.
    pub open spec fn cache_honest(self) -> bool {
        forall|k: Seq<u8>, v: Seq<u8>| #[trigger] self.cache.holds(k, v) ==> digest(v) == k
    }

    /// Every cached value is that of a stored block, and as long as it.
    pub open spec fn cache_indexed(self) -> bool {
        forall|k: Seq<u8>, v: Seq<u8>| #[trigger]
            self.cache.holds(k, v) ==> self.index.contains_key(k) && v.len() == self.index[k].len
    }

    /// Every cached value is that of a stored block, as it stands in the log.
    pub open spec fn cache_current(self, log: Seq<u8>) -> bool {
        forall|k: Seq<u8>, v: Seq<u8>| #[trigger]
            self.cache.holds(k, v) ==> self.index.contains_key(k) && bytes_at(log, self.index[k])
                == v
    }

    /// The block under `k` read: the store afterwards and the bytes. They come
    /// from the cache ([`BlockStore::lookup`]) or else from the log, and are
    /// then cached, if they are the right ones ([`BlockStore::accept`]).
    pub open spec fn block_read(self, k: Seq<u8>, log: Seq<u8>) -> (
        BlocksModel,
        Result<Seq<u8>, Fault>,
    ) {
        let found = BlocksModel { cache: self.cache.looked_up(k), ..self };
        match self.cache.lookup(k) {
            Some(v) => (found, Ok(v)),
            None => if !self.index.contains_key(k) {
                (found, Err(Fault::BlockNotFound(k)))
            } else {
                let v = bytes_at(log, self.index[k]);
                if digest(v) == k {
                    (BlocksModel { cache: found.cache.inserted(k, v), ..self }, Ok(v))
                } else {
                    (found, Err(Fault::IntegrityFailed { expected: k, actual: digest(v) }))
                }
            },
        }
    }

    /// The first `n` of the blocks read, one after the other, up to one that
    /// cannot be read.
    pub open spec fn blocks_read(self, wanted: Seq<Seq<u8>>, log: Seq<u8>, n: int) -> (
        BlocksModel,
        Result<Seq<Seq<u8>>, Fault>,
    )
        decreases n,
    {
        if n <= 0 {
            (self, Ok(Seq::empty()))
        } else {
            let (before, r) = self.blocks_read(wanted, log, n - 1);
            match r {
                Err(e) => (before, Err(e)),
                Ok(parts) => {
                    let (after, last) = before.block_read(wanted[n - 1], log);
                    match last {
                        Err(e) => (after, Err(e)),
                        Ok(v) => (after, Ok(parts.push(v))),
                    }
                },
            }
        }
    }

    /// The block under `k` is stored as `bytes`, in the log and, where it is
    /// cached, in the cache.
    pub open spec fn answers(self, log: Seq<u8>, k: Seq<u8>, bytes: Seq<u8>) -> bool {
        &&& self.index.contains_key(k)
        &&& bytes_at(log, self.index[k]) == bytes
        &&& digest(bytes) == k
        &&& forall|v: Seq<u8>| #[trigger] self.cache.holds(k, v) ==> v == bytes
    }
}

proof fn lemma_block_read(
    m: BlocksModel,
    log: Seq<u8>,
    k: Seq<u8>,
    bytes: Seq<u8>,
    other: Seq<u8>,
    content: Seq<u8>,
)
    requires
        m.answers(log, k, bytes),
        m.answers(log, other, content),
    ensures
        m.block_read(k, log).1 == Ok::<Seq<u8>, Fault>(bytes),
        m.block_read(k, log).0.answers(log, other, content),
{
    lemma_looked_up_holds(m.cache, k);
    lemma_inserted_holds(m.cache.looked_up(k), k, bytes);
}

/// Blocks that are stored as they were put are read as they were put, wherever
/// they are read from.
pub proof fn law_stored_blocks_are_read_back(
    m: BlocksModel,
    log: Seq<u8>,
    wanted: Seq<Seq<u8>>,
    blocks: Seq<Seq<u8>>,
    n: int,
)
    requires
        wanted.len() == blocks.len(),
        0 <= n <= blocks.len(),
        forall|i: int| 0 <= i < blocks.len() ==> m.answers(log, wanted[i], #[trigger] blocks[i]),
    ensures
        m.blocks_read(wanted, log, n).1 == Ok::<Seq<Seq<u8>>, Fault>(blocks.take(n)),
        forall|i: int|
            0 <= i < blocks.len() ==> m.blocks_read(wanted, log, n).0.answers(
                log,
                wanted[i],
                #[trigger] blocks[i],
            ),
    decreases n,
{
    if n > 0 {
        law_stored_blocks_are_read_back(m, log, wanted, blocks, n - 1);
        let before = m.blocks_read(wanted, log, n - 1).0;
        let last = blocks[n - 1];
        assert(before.answers(log, wanted[n - 1], last));
        assert(before.block_read(wanted[n - 1], log).1 == Ok::<Seq<u8>, Fault>(last)) by {
            lemma_block_read(before, log, wanted[n - 1], last, wanted[n - 1], last);
        }
        assert forall|i: int| 0 <= i < blocks.len() implies m.blocks_read(wanted, log, n).0.answers(
            log,
            wanted[i],
            #[trigger] blocks[i],
        ) by {
            assert(before.answers(log, wanted[i], blocks[i]));
            lemma_block_read(before, log, wanted[n - 1], last, wanted[i], blocks[i]);
        }
        assert(blocks.take(n - 1).push(last) =~= blocks.take(n));
    } else {
        assert(blocks.take(n) =~= Seq::empty());
    }
}

/// What is read under an address has it as its digest, whatever became of the
/// log. A block that is not stored is refused, and so is one that is not in the
/// cache and whose bytes in the log have another digest.
pub proof fn law_no_wrong_block_is_read(m: BlocksModel, k: Seq<u8>, log: Seq<u8>)
    requires
        m.cache_honest(),
        m.cache_indexed(),
    ensures
        m.block_read(k, log).1 is Ok ==> digest(m.block_read(k, log).1->Ok_0) == k,
        !m.index.contains_key(k) ==> m.block_read(k, log).1 == Err::<Seq<u8>, Fault>(
            Fault::BlockNotFound(k),
        ),
        m.index.contains_key(k) && m.cache.lookup(k) is None && digest(bytes_at(log, m.index[k]))
            != k ==> m.block_read(k, log).1 is Err,
{
    lemma_looked_up_holds(m.cache, k);
}

/// New content adds one block and its length; content that is stored already
/// adds nothing.
pub proof fn law_put_counts_new_content(m: BlocksModel, bytes: Seq<u8>)
    requires
        m.index.dom().finite(),
        bytes.len() <= u32::MAX,
    ensures
        ({
            let after = m.stored(bytes);
            if m.index.contains_key(digest(bytes)) {
                after == m
            } else {
                &&& after.entries().len() == m.entries().len() + 1
                &&& after.physical() == m.physical() + bytes.len()
            }
        }),
{
    let k = digest(bytes);
    if !m.index.contains_key(k) {
        let e = Extent { offset: (m.log_len + 4) as u64, len: bytes.len() as u32 };
        lemma_finite_map_has_entries::<Hash, Extent>(m.index);
        let before = m.entries();
        let p = lemma_place_for::<Hash, Extent>(before, k);
        lemma_map_of_insert::<Hash, Extent>(before, p, k, e);
        let after = before.insert(p, (k, e));
        let now = m.stored(bytes).entries();
        assert(ascending::<Hash, Extent>(now) && map_of(now) == m.stored(bytes).index);
        lemma_entries_unique::<Hash, Extent>(after, now);
        lemma_covered_insert(before, p, (k, e));
    }
}

/// Storing blocks and appending their records keeps the log intact.
pub proof fn law_store_keeps_log_intact(m: BlocksModel, log: Seq<u8>, blocks: Seq<Seq<u8>>, n: int)
    requires
        m.intact(log),
        0 <= n <= blocks.len(),
        forall|i: int| 0 <= i < n ==> (#[trigger] blocks[i]).len() <= u32::MAX,
        log.len() + m.appended_all(blocks, n).len() <= u64::MAX,
    ensures
        m.stored_all(blocks, n).intact(log + m.appended_all(blocks, n)),
    decreases n,
{
    if n > 0 {
        let b = blocks[n - 1];
        let before = m.stored_all(blocks, n - 1);
        let head = log + m.appended_all(blocks, n - 1);
        law_store_keeps_log_intact(m, log, blocks, n - 1);
        let after = m.stored_all(blocks, n);
        let whole = log + m.appended_all(blocks, n);
        assert(whole =~= head + before.appended(b));
        assert forall|k: Seq<u8>| #[trigger] after.index.contains_key(k) implies {
            let e = after.index[k];
            &&& e.offset + e.len <= whole.len()
            &&& digest(bytes_at(whole, e)) == k
        } by {
            let e = after.index[k];
            if before.index.contains_key(k) {
                assert(bytes_at(whole, e) =~= bytes_at(head, e));
            } else {
                assert(bytes_at(whole, e) =~= b);
            }
        }
    } else {
        assert(log + m.appended_all(blocks, n) =~= log);
    }
}

/// Every block that was stored is in the index, and what was there before
/// stays where it was.
pub proof fn law_store_indexes_every_block(m: BlocksModel, blocks: Seq<Seq<u8>>, n: int)
    requires
        0 <= n <= blocks.len(),
    ensures
        forall|i: int|
            0 <= i < n ==> m.stored_all(blocks, n).index.contains_key(digest(#[trigger] blocks[i])),
        m.index.submap_of(m.stored_all(blocks, n).index),
        forall|k: Seq<u8>| #[trigger]
            m.stored_all(blocks, n).index.contains_key(k) ==> m.index.contains_key(k) || exists|
                i: int,
            |
                0 <= i < n && k == digest(#[trigger] blocks[i]),
    decreases n,
{
    if n > 0 {
        law_store_indexes_every_block(m, blocks, n - 1);
        let before = m.stored_all(blocks, n - 1);
        let after = m.stored_all(blocks, n);
        assert(after == before.stored(blocks[n - 1]));
        assert(before.index.submap_of(after.index));
    }
}

/// The blocks that were stored stand in the log byte for byte, where nothing
/// clashes.
pub proof fn law_stored_blocks_are_in_the_log(
    m: BlocksModel,
    log: Seq<u8>,
    blocks: Seq<Seq<u8>>,
    n: int,
)
    requires
        m.intact(log),
        0 <= n <= blocks.len(),
        forall|i: int| 0 <= i < n ==> (#[trigger] blocks[i]).len() <= u32::MAX,
        log.len() + m.appended_all(blocks, n).len() <= u64::MAX,
        m.clash_free(log, blocks),
    ensures
        forall|i: int|
            0 <= i < n ==> {
                let k = digest(#[trigger] blocks[i]);
                &&& m.stored_all(blocks, n).index.contains_key(k)
                &&& bytes_at(log + m.appended_all(blocks, n), m.stored_all(blocks, n).index[k])
                    == blocks[i]
            },
    decreases n,
{
    if n > 0 {
        let b = blocks[n - 1];
        let before = m.stored_all(blocks, n - 1);
        let after = m.stored_all(blocks, n);
        let head = log + m.appended_all(blocks, n - 1);
        let whole = log + m.appended_all(blocks, n);
        law_stored_blocks_are_in_the_log(m, log, blocks, n - 1);
        law_store_keeps_log_intact(m, log, blocks, n - 1);
        law_store_indexes_every_block(m, blocks, n - 1);
        assert(whole =~= head + before.appended(b));
        assert forall|i: int| 0 <= i < n implies {
            let k = digest(#[trigger] blocks[i]);
            &&& after.index.contains_key(k)
            &&& bytes_at(whole, after.index[k]) == blocks[i]
        } by {
            let k = digest(blocks[i]);
            if before.index.contains_key(k) {
                let e = before.index[k];
                assert(after.index[k] == e);
                assert(bytes_at(whole, e) =~= bytes_at(head, e));
                if i == n - 1 {
                    if m.index.contains_key(k) {
                        let f = m.index[k];
                        assert(before.index[k] == f);
                        assert(bytes_at(head, f) =~= bytes_at(log, f));
                    } else {
                        let j = choose|j: int| 0 <= j < n - 1 && k == digest(#[trigger] blocks[j]);
                        assert(blocks[j] == blocks[i]);
                    }
                }
            } else {
                assert(i == n - 1);
                assert(bytes_at(whole, after.index[k]) =~= b);
            }
        }
    }
}

/// What the cache holds after blocks were stored was there before or is one of
/// the blocks under its address.
proof fn lemma_stored_holds(
    m: BlocksModel,
    blocks: Seq<Seq<u8>>,
    n: int,
    k: Seq<u8>,
    v: Seq<u8>,
)
    requires
        0 <= n <= blocks.len(),
        m.stored_all(blocks, n).cache.holds(k, v),
    ensures
        m.cache.holds(k, v) || exists|i: int|
            0 <= i < n && #[trigger] blocks[i] == v && digest(blocks[i]) == k,
    decreases n,
{
    if n > 0 {
        let before = m.stored_all(blocks, n - 1);
        let b = blocks[n - 1];
        lemma_inserted_holds(before.cache, digest(b), b);
        if before.cache.holds(k, v) {
            lemma_stored_holds(m, blocks, n - 1, k, v);
        } else {
            assert((k, v) == (digest(b), b));
        }
    }
}

/// A block that was stored is read back as it was put, from the cache or from
/// the log, if the log was intact, its record was appended, and nothing
/// clashes.
pub proof fn law_put_then_get(m: BlocksModel, log: Seq<u8>, blocks: Seq<Seq<u8>>)
    requires
        m.intact(log),
        forall|i: int| 0 <= i < blocks.len() ==> (#[trigger] blocks[i]).len() <= u32::MAX,
        log.len() + m.appended_all(blocks, blocks.len() as int).len() <= u64::MAX,
        m.clash_free(log, blocks),
    ensures
        ({
            let n = blocks.len() as int;
            let after = m.stored_all(blocks, n);
            let new_log = log + m.appended_all(blocks, n);
            let wanted = Seq::new(blocks.len(), |i: int| digest(blocks[i]));
            &&& forall|i: int|
                0 <= i < n ==> after.answers(new_log, digest(blocks[i]), #[trigger] blocks[i])
            &&& after.blocks_read(wanted, new_log, n).1 == Ok::<Seq<Seq<u8>>, Fault>(blocks)
        }),
{
    let n = blocks.len() as int;
    let after = m.stored_all(blocks, n);
    let new_log = log + m.appended_all(blocks, n);
    law_stored_blocks_are_in_the_log(m, log, blocks, n);
    assert forall|i: int| 0 <= i < n implies after.answers(
        new_log,
        digest(blocks[i]),
        #[trigger] blocks[i],
    ) by {
        assert forall|v: Seq<u8>| #[trigger] after.cache.holds(digest(blocks[i]), v) implies v
            == blocks[i] by {
            lemma_stored_holds(m, blocks, n, digest(blocks[i]), v);
            if !m.cache.holds(digest(blocks[i]), v) {
                let j = choose|j: int|
                    0 <= j < n && #[trigger] blocks[j] == v && digest(blocks[j]) == digest(
                        blocks[i],
                    );
                assert(blocks[j] == blocks[i]);
            }
        }
    }
    let wanted = Seq::new(blocks.len(), |i: int| digest(blocks[i]));
    law_stored_blocks_are_read_back(after, new_log, wanted, blocks, n);
    assert(blocks.take(n) =~= blocks);
}

/// Storing blocks keeps the cache in agreement with the log.
pub proof fn law_store_keeps_cache_current(m: BlocksModel, log: Seq<u8>, blocks: Seq<Seq<u8>>)
    requires
        m.intact(log),
        m.cache_current(log),
        forall|i: int| 0 <= i < blocks.len() ==> (#[trigger] blocks[i]).len() <= u32::MAX,
        log.len() + m.appended_all(blocks, blocks.len() as int).len() <= u64::MAX,
        m.clash_free(log, blocks),
    ensures
        m.stored_all(blocks, blocks.len() as int).cache_current(
            log + m.appended_all(blocks, blocks.len() as int),
        ),
{
    let n = blocks.len() as int;
    let after = m.stored_all(blocks, n);
    let new_log = log + m.appended_all(blocks, n);
    law_stored_blocks_are_in_the_log(m, log, blocks, n);
    law_store_indexes_every_block(m, blocks, n);
    assert forall|k: Seq<u8>, v: Seq<u8>| #[trigger]
        after.cache.holds(k, v) implies after.index.contains_key(k) && bytes_at(
        new_log,
        after.index[k],
    ) == v by {
        lemma_stored_holds(m, blocks, n, k, v);
        if m.cache.holds(k, v) {
            assert(m.index.contains_key(k));
            assert(m.index.submap_of(after.index));
            assert(after.index.contains_key(k));
            assert(after.index[k] == m.index[k]);
            assert(bytes_at(new_log, m.index[k]) =~= bytes_at(log, m.index[k]));
        }
    }
}

/// Identical content is stored a single time: a block that is there already
/// changes nothing and appends nothing.
pub proof fn law_identical_block_is_stored_once(m: BlocksModel, bytes: Seq<u8>)
    ensures
        m.stored(bytes).stored(bytes) == m.stored(bytes),
        m.stored(bytes).appended(bytes) == Seq::<u8>::empty(),
        m.stored(bytes).index.contains_key(digest(bytes)),
{
}

/// Why bytes were not taken as a block.
#[derive(Debug, Clone, Copy, PartialEq, Eq)]
pub enum Refusal {
    /// There is no such block.
    NotStored,
    /// The bytes have this digest.
    Corrupt(Hash),
}

/// What a [`BlockStore::compact`] run did.
#[derive(Debug, Clone, Copy, PartialEq, Eq)]
pub struct CompactStats {
    pub kept_blocks: usize,
    pub dropped_blocks: usize,
    pub bytes_reclaimed: u64,
}

/// One of the entries is that of a block `k` of `n` bytes.
spec fn has_entry(entries: Seq<(Seq<u8>, Extent)>, k: Seq<u8>, n: nat) -> bool {
    exists|p: int| 0 <= p < entries.len() && (#[trigger] entries[p]).0 == k && entries[p].1.len == n
}

/// Values of different blocks are no longer together than all blocks.
proof fn lemma_values_are_covered(
    s: Seq<(Seq<u8>, Seq<u8>)>,
    entries: Seq<(Seq<u8>, Extent)>,
)
    requires
        distinct_keys(s),
        forall|i: int| 0 <= i < s.len() ==> has_entry(entries, (#[trigger] s[i]).0, s[i].1.len()),
    ensures
        total_bytes(s) <= covered(entries),
    decreases s.len(),
{
    if s.len() > 0 {
        let e = s[0];
        assert(has_entry(entries, e.0, e.1.len()));
        let p = choose|p: int|
            0 <= p < entries.len() && (#[trigger] entries[p]).0 == e.0 && entries[p].1.len
                == e.1.len();
        let rest = entries.remove(p);
        let s1 = s.drop_first();
        assert forall|i: int| 0 <= i < s1.len() implies has_entry(
            rest,
            (#[trigger] s1[i]).0,
            s1[i].1.len(),
        ) by {
            let x = s[i + 1];
            assert(has_entry(entries, x.0, x.1.len()));
            let q = choose|q: int|
                0 <= q < entries.len() && (#[trigger] entries[q]).0 == x.0 && entries[q].1.len
                    == x.1.len();
            assert(s[i + 1].0 != s[0].0);
            if q < p {
                assert(rest[q] == entries[q]);
            } else {
                assert(rest[q - 1] == entries[q]);
            }
        }
        lemma_values_are_covered(s1, rest);
        lemma_covered_insert(rest, p, entries[p]);
        assert(rest.insert(p, entries[p]) =~= entries);
    }
}

/// There is room to cache a stored block: what is cached is no longer than what
/// is stored.
proof fn lemma_cache_has_room(
    m: BlocksModel,
    entries: Seq<(Seq<u8>, Extent)>,
    k: Seq<u8>,
    v: Seq<u8>,
)
    requires
        m.cache.keys_distinct(),
        ascending::<Hash, Extent>(entries),
        map_of(entries) == m.index,
        forall|a: Seq<u8>, b: Seq<u8>| #[trigger]
            m.cache.holds(a, b) && a != k ==> m.index.contains_key(a) && b.len() == m.index[a].len,
        m.index.contains_key(k),
        m.index[k].len == v.len(),
    ensures
        m.cache.invalidated(k).resident() + v.len() <= covered(entries),
{
    let s = lemma_other_entries(m.cache, k, v);
    assert forall|i: int| 0 <= i < s.len() implies has_entry(
        entries,
        (#[trigger] s[i]).0,
        s[i].1.len(),
    ) by {
        assert(s[i] == (k, v) || m.cache.holds(s[i].0, s[i].1));
        let p = lemma_map_of_key(entries, s[i].0);
        assert(entries[p].0 == s[i].0);
    }
    lemma_values_are_covered(s, entries);
}

/// What is known of a block that was asked for.
pub enum Lookup {
    /// Its data, served from the cache.
    Cached(Arc<Vec<u8>>),
    /// Where its data stands in the log.
    OnDisk(Extent),
    /// There is no such block.
    Missing,
}

/// A content-addressed, append-only, deduplicating block store.
///
/// Blocks are written once and never mutated. Identical content is stored a
/// single time. Bytes that were read from the log are hashed again and
/// compared with the requested address, so that silent corruption is detected
/// rather than returned.
pub struct BlockStore {
    index: SortedMap<Hash, Extent>,
    log_len: u64,
    stored: u64,
    cache: RamCache,
}

impl View for BlockStore {
    type V = BlocksModel;

    closed spec fn view(&self) -> BlocksModel {
        BlocksModel { index: self.index@, log_len: self.log_len as nat, cache: self.cache@ }
    }
}

impl BlockStore {
    pub closed spec fn wf(&self) -> bool {
        &&& self.cache.wf()
        &&& self@.cache_honest()
        &&& self@.cache_indexed()
        &&& ascending::<Hash, Extent>(self.index.entries())
        &&& self.stored == covered(self.index.entries())
        &&& self.stored + 4 * self.index.entries().len() <= u64::MAX
    }

    /// What [`BlockStore::wf`] says of the state.
    pub proof fn lemma_wf(&self)
        requires
            self.wf(),
        ensures
            self@.cache_honest(),
            self@.cache_indexed(),
            self@.index.dom().finite(),
            ascending::<Hash, Extent>(self@.entries()),
            map_of(self@.entries()) == self@.index,
            self@.cache.keys_distinct(),
            self@.cache.resident() <= self@.cache.cap,
            self@.log_len <= u64::MAX,
            self@.framed() <= u64::MAX,
    {
        self.cache.lemma_wf();
        self.index.lemma_finite();
        self.lemma_entries();
    }

    proof fn lemma_entries(&self)
        requires
            self.wf(),
        ensures
            self.index.entries() == self@.entries(),
            map_of(self@.entries()) == self@.index,
    {
        lemma_entries_unique::<Hash, Extent>(self.index.entries(), self@.entries());
    }

    /// A store over a log of `log_len` bytes with the index `index`, or `None`
    /// where the records of the indexed blocks are more bytes than a log can
    /// hold.
    /// `cache_bytes` is the strict RAM budget for cached block data.
    pub fn open(index: SortedMap<Hash, Extent>, log_len: u64, cache_bytes: u64) -> (r: Option<BlockStore>)
        ensures
            match r {
                Some(s) => s.wf() && s@ == (BlocksModel {
                    index: index@,
                    log_len: log_len as nat,
                    cache: CacheModel::empty(cache_bytes),
                }),
                None => covered(index.entries()) + 4 * index.entries().len() > u64::MAX,
            },
            covered(index.entries()) + 4 * index.entries().len() > u64::MAX ==> r is None,
    {
        let n: usize = index.len();
        let mut stored: u64 = 0;
        let mut i: usize = 0;
        let ghost all = index.entries();
        assert(all.take(0) =~= Seq::empty());
        while i < n
            invariant
                n == all.len(),
                all == index.entries(),
                i <= n,
                stored == covered(all.take(i as int)),
            decreases n - i,
        {
            let e = index.entry(i);
            proof {
                lemma_covered_take(all, i as int);
            }
            match stored.checked_add(e.1.len as u64) {
                Some(t) => {
                    stored = t;
                },
                None => {
                    proof {
                        lemma_covered_part(all, i + 1);
                    }
                    return None;
                },
            }
            i = i + 1;
        }
        assert(all.take(i as int) =~= all);
        if stored as u128 + 4 * (n as u128) > u64::MAX as u128 {
            return None;
        }
        let s = BlockStore { index, log_len, stored, cache: RamCache::new(cache_bytes) };
        Some(s)
    }

    /// Whether `n` more bytes of records can be stored without an offset or a count
    /// leaving its range.
    pub fn has_room(&self, n: u64) -> (r: bool)
        requires
            self.wf(),
        ensures
            r == (self@.log_len + n <= u64::MAX && self@.framed() + n <= u64::MAX),
    {
        proof {
            self.lemma_entries();
        }
        let framed: u64 = self.stored + 4 * (self.index.len() as u64);
        n <= u64::MAX - self.log_len && n <= u64::MAX - framed
    }

    /// Stores a block. A no-op if an identical block already exists. The bytes
    /// that go to the log are those of [`BlockStore::log_tail`].
    pub fn put(&mut self, block: &Block)
        requires
            old(self).wf(),
            block@.len() <= u32::MAX,
            old(self)@.log_len + 4 + block@.len() <= u64::MAX,
            old(self)@.framed() + 4 + block@.len() <= u64::MAX,
        ensures
            final(self).wf(),
            final(self)@ == old(self)@.stored(block@),
            final(self)@.framed() <= old(self)@.framed() + 4 + block@.len(),
    {
        proof {
            self.lemma_entries();
        }
        let hash = block.hash();
        if self.index.contains_key(&hash) {
            return;
        }
        let ghost before = self.index.entries();
        let extent = Extent { offset: self.log_len + 4, len: block.len() as u32 };
        self.index.insert(hash, extent);
        self.log_len = self.log_len + 4 + block.len() as u64;
        self.stored = self.stored + block.len() as u64;
        proof {
            lemma_inserted_holds(self.cache@, hash@, block@);
            let p = choose|p: int|
                0 <= p <= before.len() && self.index.entries() == #[trigger] before.insert(
                    p,
                    (hash@, extent),
                );
            lemma_covered_insert(before, p, (hash@, extent));
            self.cache.lemma_wf();
            assert forall|a: Seq<u8>, b: Seq<u8>| #[trigger]
                self@.cache.holds(a, b) && a != hash@ implies self@.index.contains_key(a) && b.len()
                == self@.index[a].len by {
                assert(old(self)@.cache.holds(a, b));
            }
            lemma_cache_has_room(self@, self.index.entries(), hash@, block@);
        }
        self.cache.insert(slice_to_vec(hash.as_slice()), block.data());
        proof {
            assert(self@ =~= old(self)@.stored(block@));
            self.lemma_entries();
        }
    }

    /// What storing the blocks one after the other appends to the log: the
    /// offset at which the log ends now, and the records of the blocks that are
    /// not there yet.
    pub fn log_tail(&self, blocks: &Vec<Block>) -> (r: (u64, Vec<u8>))
        requires
            self.wf(),
            forall|i: int| 0 <= i < blocks@.len() ==> (#[trigger] blocks@[i])@.len() <= u32::MAX,
        ensures
            r.0 == self@.log_len,
            r.1@ == self@.appended_all(contents(blocks@), blocks@.len() as int),
    {
        let ghost c = contents(blocks@);
        let mut seen: SortedMap<Hash, ()> = SortedMap::new();
        let mut tail: Vec<u8> = Vec::new();
        let mut i: usize = 0;
        while i < blocks.len()
            invariant
                i <= blocks@.len(),
                c == contents(blocks@),
                forall|j: int| 0 <= j < blocks@.len() ==> (#[trigger] blocks@[j])@.len() <= u32::MAX,
                tail@ == self@.appended_all(c, i as int),
                forall|k: Seq<u8>|
                    (self@.index.contains_key(k) || seen@.contains_key(k)) == (
                    #[trigger] self@.stored_all(c, i as int).index.contains_key(k)),
            decreases blocks@.len() - i,
        {
            let hash = blocks[i].hash();
            let ghost so_far = self@.stored_all(c, i as int);
            assert(c[i as int] == blocks@[i as int]@);
            assert(so_far.index.contains_key(hash@) == (self@.index.contains_key(hash@)
                || seen@.contains_key(hash@)));
            if !self.index.contains_key(&hash) && !seen.contains_key(&hash) {
                let header = u32_le(blocks[i].len() as u32);
                tail.extend_from_slice(header.as_slice());
                let data = blocks[i].data();
                tail.extend_from_slice(data.as_slice());
                seen.insert(hash, ());
                assert(tail@ =~= self@.appended_all(c, i as int) + record(c[i as int]));
            } else {
                assert(tail@ =~= self@.appended_all(c, i as int) + Seq::<u8>::empty());
            }
            i = i + 1;
        }
        (self.log_len, tail)
    }

    /// Looks a block up by its address. Served from the RAM cache on a hit,
    /// with no read and no hash.
    pub fn lookup(&mut self, hash: &Hash) -> (r: Lookup)
        requires
            old(self).wf(),
        ensures
            final(self).wf(),
            final(self)@ == (BlocksModel { cache: old(self)@.cache.looked_up(hash@), ..old(self)@ }),
            match r {
                Lookup::Cached(v) => old(self)@.cache.lookup(hash@) == Some(v@) && digest(v@)
                    == hash@ && old(self)@.index.contains_key(hash@),
                Lookup::OnDisk(e) => old(self)@.cache.lookup(hash@) is None
                    && old(self)@.index.contains_key(hash@) && e == old(self)@.index[hash@],
                Lookup::Missing => old(self)@.cache.lookup(hash@) is None
                    && !old(self)@.index.contains_key(hash@),
            },
            !old(self)@.index.contains_key(hash@) ==> r is Missing,
    {
        proof {
            lemma_looked_up_holds(self.cache@, hash@);
        }
        if let Some(v) = self.cache.get(hash.as_slice()) {
            return Lookup::Cached(v);
        }
        match self.index.get(hash) {
            Some(e) => Lookup::OnDisk(*e),
            None => Lookup::Missing,
        }
    }

    /// Takes bytes that were read from the log as the block `hash`, after
    /// verifying its integrity: where there is no such block, or the bytes have
    /// another digest, they are not taken.
    pub fn accept(&mut self, hash: &Hash, buf: Vec<u8>) -> (r: Result<Arc<Vec<u8>>, Refusal>)
        requires
            old(self).wf(),
            old(self)@.index.contains_key(hash@) ==> buf@.len() == old(self)@.index[hash@].len,
        ensures
            final(self).wf(),
            match r {
                Ok(v) => old(self)@.index.contains_key(hash@) && digest(buf@) == hash@ && v@
                    == buf@ && final(self)@ == (BlocksModel {
                    cache: old(self)@.cache.inserted(hash@, buf@),
                    ..old(self)@
                }),
                Err(Refusal::NotStored) => !old(self)@.index.contains_key(hash@) && final(self)@
                    == old(self)@,
                Err(Refusal::Corrupt(actual)) => old(self)@.index.contains_key(hash@) && digest(
                    buf@,
                ) != hash@ && actual@ == digest(buf@) && final(self)@ == old(self)@,
            },
    {
        if !self.index.contains_key(hash) {
            return Err(Refusal::NotStored);
        }
        let actual = hash_bytes(buf.as_slice());
        if !same_hash(&actual, hash) {
            return Err(Refusal::Corrupt(actual));
        }
        proof {
            lemma_inserted_holds(self.cache@, hash@, buf@);
            self.cache.lemma_wf();
            lemma_cache_has_room(self@, self.index.entries(), hash@, buf@);
        }
        let ghost taken = buf@;
        let data = Arc::new(buf);
        self.cache.insert(slice_to_vec(hash.as_slice()), data.clone());
        assert(self@.cache_honest() && self@.cache_indexed()) by {
            assert(self@.cache == old(self)@.cache.inserted(hash@, taken));
        }
        Ok(data)
    }

    pub fn cache_stats(&self) -> (s: CacheStats)
        requires
            self.wf(),
        ensures
            s.cap_bytes == self@.cache.cap,
            s.resident_bytes == self@.cache.resident(),
            s.protected_entries == self@.cache.protected.len(),
            s.probation_entries == self@.cache.probation.len(),
            self@.cache.probation.len() + self@.cache.protected.len() <= usize::MAX ==> s.entries
                == self@.cache.probation.len() + self@.cache.protected.len(),
            s.hits == self@.cache.hits,
            s.misses == self@.cache.misses,
            s.evictions == self@.cache.evictions,
            s.promotions == self@.cache.promotions,
    {
        self.cache.stats()
    }

    /// Number of unique stored blocks.
    pub fn block_count(&self) -> (n: usize)
        requires
            self.wf(),
        ensures
            n == self@.entries().len(),
    {
        proof {
            self.lemma_entries();
        }
        self.index.len()
    }

    /// Total physical bytes occupied by unique block data (excludes record headers).
    pub fn physical_bytes(&self) -> (n: u64)
        requires
            self.wf(),
        ensures
            n == self@.physical(),
    {
        proof {
            self.lemma_entries();
        }
        self.stored
    }

    /// The length of a stored block; 0 where there is none.
    pub fn len_for(&self, hash: &Hash) -> (n: u32)
        ensures
            n == self@.len_of(hash@),
    {
        match self.index.get(hash) {
            Some(e) => e.len,
            None => 0,
        }
    }

    /// Where a block stands.
    pub fn extent(&self, hash: &Hash) -> (r: Option<Extent>)
        ensures
            match r {
                Some(e) => self@.index.contains_key(hash@) && e == self@.index[hash@],
                None => !self@.index.contains_key(hash@),
            },
    {
        match self.index.get(hash) {
            Some(e) => Some(*e),
            None => None,
        }
    }

    /// Where the blocks stand, in ascending order of their addresses.
    pub fn extents(&self) -> (v: Vec<(Hash, Extent)>)
        requires
            self.wf(),
        ensures
            v@.len() == self@.entries().len(),
            forall|i: int|
                0 <= i < v@.len() ==> ((#[trigger] v@[i]).0@, v@[i].1) == self@.entries()[i],
    {
        proof {
            self.lemma_entries();
        }
        let mut v: Vec<(Hash, Extent)> = Vec::new();
        let n: usize = self.index.len();
        let mut i: usize = 0;
        while i < n
            invariant
                n == self.index.entries().len(),
                i == v@.len(),
                i <= n,
                forall|j: int|
                    0 <= j < i ==> ((#[trigger] v@[j]).0@, v@[j].1) == self.index.entries()[j],
            decreases n - i,
        {
            let e = self.index.entry(i);
            v.push((*e.0, *e.1));
            i = i + 1;
        }
        v
    }

    /// Begins to verify every stored block against its checksum.
    pub fn scrub(&self) -> (s: Scrub)
        requires
            self.wf(),
        ensures
            s@ == ScrubModel::start(self@),
    {
        let s = Scrub { todo: self.extents(), checked: 0, bad: Vec::new() };
        assert(s@ =~= ScrubModel::start(self@));
        s
    }
}

/// The length of the log once the first `n` entries are rewritten and only
/// the live ones kept.
pub open spec fn kept_len(entries: Seq<(Seq<u8>, Extent)>, live: Set<Seq<u8>>, n: int) -> nat
    decreases n,
{
    if n <= 0 {
        0
    } else if live.contains(entries[n - 1].0) {
        kept_len(entries, live, n - 1) + 4 + entries[n - 1].1.len as nat
    } else {
        kept_len(entries, live, n - 1)
    }
}

/// The live ones among the first `n` entries, at the places that they get when
/// their records are written one behind the other.
pub open spec fn kept_entries(entries: Seq<(Seq<u8>, Extent)>, live: Set<Seq<u8>>, n: int) -> Seq<
    (Seq<u8>, Extent),
>
    decreases n,
{
    if n <= 0 {
        Seq::empty()
    } else if live.contains(entries[n - 1].0) {
        kept_entries(entries, live, n - 1).push(
            (
                entries[n - 1].0,
                Extent {
                    offset: (kept_len(entries, live, n - 1) + 4) as u64,
                    len: entries[n - 1].1.len,
                },
            ),
        )
    } else {
        kept_entries(entries, live, n - 1)
    }
}

/// The live ones among the first `n` entries.
pub open spec fn live_entries(entries: Seq<(Seq<u8>, Extent)>, live: Set<Seq<u8>>, n: int) -> Seq<
    (Seq<u8>, Extent),
>
    decreases n,
{
    if n <= 0 {
        Seq::empty()
    } else if live.contains(entries[n - 1].0) {
        live_entries(entries, live, n - 1).push(entries[n - 1])
    } else {
        live_entries(entries, live, n - 1)
    }
}

/// The addresses among the first `n` entries that are not live.
pub open spec fn dropped_keys(entries: Seq<(Seq<u8>, Extent)>, live: Set<Seq<u8>>, n: int) -> Seq<
    Seq<u8>,
>
    decreases n,
{
    if n <= 0 {
        Seq::empty()
    } else if live.contains(entries[n - 1].0) {
        dropped_keys(entries, live, n - 1)
    } else {
        dropped_keys(entries, live, n - 1).push(entries[n - 1].0)
    }
}

/// The records of the extents, read from `log`, one behind the other.
pub open spec fn copied(log: Seq<u8>, entries: Seq<(Seq<u8>, Extent)>) -> Seq<u8>
    decreases entries.len(),
{
    if entries.len() == 0 {
        Seq::empty()
    } else {
        copied(log, entries.drop_last()) + record(bytes_at(log, entries.last().1))
    }
}

/// The addresses and places as models.
pub open spec fn places(v: Seq<(Hash, Extent)>) -> Seq<(Seq<u8>, Extent)> {
    Seq::new(v.len(), |i: int| (v[i].0@, v[i].1))
}

/// The first `n` keys taken out of the cache.
pub open spec fn without_keys(m: CacheModel, keys: Seq<Seq<u8>>, n: int) -> CacheModel
    decreases n,
{
    if n <= 0 {
        m
    } else {
        without_keys(m, keys, n - 1).invalidated(keys[n - 1])
    }
}

impl BlocksModel {
    /// Only the live blocks kept, and their records moved together.
    pub open spec fn compacted(self, live: Set<Seq<u8>>) -> BlocksModel {
        let all = self.entries();
        let n = all.len() as int;
        let dropped = dropped_keys(all, live, n);
        BlocksModel {
            index: map_of(kept_entries(all, live, n)),
            log_len: kept_len(all, live, n),
            cache: without_keys(self.cache, dropped, dropped.len() as int),
        }
    }

    /// The log that goes with [`BlocksModel::compacted`].
    pub open spec fn compacted_log(self, live: Set<Seq<u8>>, log: Seq<u8>) -> Seq<u8> {
        copied(log, live_entries(self.entries(), live, self.entries().len() as int))
    }
}

proof fn lemma_kept(entries: Seq<(Seq<u8>, Extent)>, live: Set<Seq<u8>>, n: int)
    requires
        ascending::<Hash, Extent>(entries),
        0 <= n <= entries.len(),
    ensures
        ascending::<Hash, Extent>(kept_entries(entries, live, n)),
        forall|j: int|
            0 <= j < kept_entries(entries, live, n).len() ==> exists|i: int|
                0 <= i < n && (#[trigger] entries[i]).0 == (#[trigger] kept_entries(
                    entries,
                    live,
                    n,
                )[j]).0,
        kept_entries(entries, live, n).len() + dropped_keys(entries, live, n).len() == n,
        kept_len(entries, live, n) == covered(kept_entries(entries, live, n)) + 4 * kept_entries(
            entries,
            live,
            n,
        ).len(),
        covered(kept_entries(entries, live, n)) <= covered(entries.take(n)),
    decreases n,
{
    let kept = kept_entries(entries, live, n);
    if n > 0 {
        lemma_kept(entries, live, n - 1);
        lemma_covered_take(entries, n - 1);
        let before = kept_entries(entries, live, n - 1);
        if live.contains(entries[n - 1].0) {
            let e = kept.last();
            lemma_covered_insert(before, before.len() as int, e);
            assert(before.insert(before.len() as int, e) =~= kept);
            assert forall|j: int| 0 <= j < kept.len() implies exists|i: int|
                0 <= i < n && (#[trigger] entries[i]).0 == (#[trigger] kept[j]).0 by {
                if j < before.len() {
                    assert(kept[j] == before[j]);
                } else {
                    assert(entries[n - 1].0 == kept[j].0);
                }
            }
            assert forall|a: int, b: int| 0 <= a < b < kept.len() implies Hash::before(
                (#[trigger] kept[a]).0,
                (#[trigger] kept[b]).0,
            ) by {
                assert(kept[a] == before[a]);
                if b < before.len() {
                    assert(kept[b] == before[b]);
                } else {
                    let i = choose|i: int|
                        0 <= i < n - 1 && (#[trigger] entries[i]).0 == before[a].0;
                    assert(Hash::before(entries[i].0, entries[n - 1].0));
                }
            }
        }
    } else {
        assert(entries.take(0) =~= Seq::empty());
    }
}

impl BlockStore {
    /// The live blocks and where their data stands, in the order in which their
    /// records are to be copied to a new log, each by way of
    /// [`BlockStore::copy_record`].
    pub fn compaction_reads(&self, live: &SortedMap<Hash, ()>) -> (v: Vec<(Hash, Extent)>)
        requires
            self.wf(),
        ensures
            places(v@) == live_entries(self@.entries(), live@.dom(), self@.entries().len() as int),
    {
        proof {
            self.lemma_entries();
        }
        let mut v: Vec<(Hash, Extent)> = Vec::new();
        let n: usize = self.index.len();
        let mut i: usize = 0;
        assert(places(v@) =~= Seq::empty());
        while i < n
            invariant
                n == self.index.entries().len(),
                i <= n,
                places(v@) == live_entries(self.index.entries(), live@.dom(), i as int),
            decreases n - i,
        {
            let e = self.index.entry(i);
            if live.contains_key(e.0) {
                let ghost before = v@;
                v.push((*e.0, *e.1));
                assert(places(v@) =~= places(before).push((e.0@, *e.1)));
            }
            i = i + 1;
        }
        v
    }

    /// The record of a live block for a new log, unless the bytes that were read
    /// for it have another digest than its address.
    pub fn copy_record(hash: &Hash, bytes: &[u8]) -> (r: Result<Vec<u8>, Hash>)
        requires
            bytes@.len() <= u32::MAX,
        ensures
            match r {
                Ok(v) => digest(bytes@) == hash@ && v@ == record(bytes@),
                Err(actual) => digest(bytes@) != hash@ && actual@ == digest(bytes@),
            },
    {
        let actual = hash_bytes(bytes);
        if !same_hash(&actual, hash) {
            return Err(actual);
        }
        Ok(log_record(bytes))
    }

    /// Garbage-collects the index of the log: only the blocks whose addresses
    /// are in `live` are kept, at the places that they have in a log that holds
    /// the records of [`BlockStore::compaction_reads`] one behind the other.
    /// This is what bounds long-term growth on disk.
    ///
    /// A block that was stored but is not in `live` is dropped, so `live` has
    /// to be complete.
    pub fn compact(&mut self, live: &SortedMap<Hash, ()>) -> (r: CompactStats)
        requires
            old(self).wf(),
        ensures
            final(self).wf(),
            final(self)@ == old(self)@.compacted(live@.dom()),
            r.kept_blocks == final(self)@.entries().len(),
            r.kept_blocks + r.dropped_blocks == old(self)@.entries().len(),
            r.bytes_reclaimed == old(self)@.physical() - final(self)@.physical(),
    {
        proof {
            self.lemma_entries();
        }
        let ghost all = self.index.entries();
        let ghost alive = live@.dom();
        let n: usize = self.index.len();
        let mut index: SortedMap<Hash, Extent> = SortedMap::new();
        let mut log_len: u64 = 0;
        let mut stats = CompactStats { kept_blocks: 0, dropped_blocks: 0, bytes_reclaimed: 0 };
        let mut i: usize = 0;
        proof {
            lemma_entries_unique::<Hash, Extent>(index.entries(), kept_entries(all, alive, 0));
            assert(dropped_keys(all, alive, 0).len() == 0);
            assert(all.take(0) =~= Seq::empty());
        }
        while i < n
            invariant
                self.wf(),
                alive == live@.dom(),
                all == self.index.entries(),
                all == old(self)@.entries(),
                ascending::<Hash, Extent>(all),
                n == all.len(),
                i <= n,
                self@.index == old(self)@.index,
                self.index == old(self).index,
                self.log_len == old(self).log_len,
                self.stored == old(self).stored,
                index.entries() == kept_entries(all, alive, i as int),
                log_len == kept_len(all, alive, i as int),
                stats.kept_blocks + stats.dropped_blocks == i,
                stats.kept_blocks == kept_entries(all, alive, i as int).len(),
                stats.bytes_reclaimed + covered(kept_entries(all, alive, i as int)) == covered(
                    all.take(i as int),
                ),
                covered(all) == self.stored,
                covered(all) + 4 * n <= u64::MAX,
                self.cache@ == without_keys(
                    old(self)@.cache,
                    dropped_keys(all, alive, i as int),
                    dropped_keys(all, alive, i as int).len() as int,
                ),
                forall|x: int, v: Seq<u8>|
                    0 <= x < i && !alive.contains(all[x].0) ==> !(#[trigger] self@.cache.holds(
                        (#[trigger] all[x]).0,
                        v,
                    )),
            decreases n - i,
        {
            let e = self.index.entry(i);
            let hash = *e.0;
            let extent = *e.1;
            proof {
                lemma_kept(all, alive, i as int);
                lemma_kept(all, alive, i + 1);
                lemma_covered_take(all, i as int);
                lemma_covered_part(all, i + 1);
            }
            if live.contains_key(&hash) {
                let moved = Extent { offset: log_len + 4, len: extent.len };
                let ghost before = index.entries();
                index.insert(hash, moved);
                log_len = log_len + 4 + extent.len as u64;
                stats.kept_blocks = stats.kept_blocks + 1;
                proof {
                    let kept = kept_entries(all, alive, i + 1);
                    assert(kept == before.push((hash@, moved)));
                    lemma_map_of_push::<Hash, Extent>(before, (hash@, moved));
                    lemma_entries_unique::<Hash, Extent>(index.entries(), kept);
                    lemma_covered_insert(before, before.len() as int, (hash@, moved));
                    assert(before.insert(before.len() as int, (hash@, moved)) =~= kept);
                }
            } else {
                proof {
                    lemma_invalidated_holds(self.cache@, hash@);
                    let gone = dropped_keys(all, alive, i as int);
                    lemma_without_keys_prefix(old(self)@.cache, gone, gone.push(hash@), gone.len() as int);
                }
                let ghost cached = self@.cache;
                self.cache.invalidate(hash.as_slice());
                assert(self@.cache == cached.invalidated(hash@));
                assert forall|v: Seq<u8>| !(#[trigger] self@.cache.holds(hash@, v)) by {
                    if self@.cache.holds(hash@, v) {
                        lemma_held_is_contained(self@.cache, hash@, v);
                    }
                }
                assert(self@.cache_honest() && self@.cache_indexed());
                stats.dropped_blocks = stats.dropped_blocks + 1;
                stats.bytes_reclaimed = stats.bytes_reclaimed + extent.len as u64;
            }
            i = i + 1;
        }
        proof {
            assert(all.take(i as int) =~= all);
            lemma_kept(all, alive, i as int);
        }
        let ghost cached = self@.cache;
        proof {
            let kept = kept_entries(all, alive, n as int);
            assert forall|k: Seq<u8>, v: Seq<u8>| #[trigger] cached.holds(k, v) implies map_of(
                kept,
            ).contains_key(k) && v.len() == map_of(kept)[k].len by {
                assert(self@.index.contains_key(k) && v.len() == self@.index[k].len);
                let x = lemma_map_of_key(all, k);
                assert(alive.contains(all[x].0));
                lemma_kept_at(all, alive, n as int, x);
                lemma_map_of_entry::<Hash, Extent>(
                    kept,
                    kept_entries(all, alive, x).len() as int,
                );
            }
        }
        self.index = index;
        self.log_len = log_len;
        self.stored = self.stored - stats.bytes_reclaimed;
        proof {
            assert(self@.cache == cached);
            assert(self@.cache_honest());
            assert(self@ =~= old(self)@.compacted(alive));
            self.lemma_entries();
        }
        stats
    }
}

/// Keys behind the first `n` make no difference to [`without_keys`].
proof fn lemma_without_keys_prefix(m: CacheModel, a: Seq<Seq<u8>>, b: Seq<Seq<u8>>, n: int)
    requires
        n <= a.len(),
        n <= b.len(),
        forall|i: int| 0 <= i < n ==> a[i] == b[i],
    ensures
        without_keys(m, a, n) == without_keys(m, b, n),
    decreases n,
{
    if n > 0 {
        lemma_without_keys_prefix(m, a, b, n - 1);
    }
}

/// Where a live entry stands among the kept ones.
proof fn lemma_kept_at(entries: Seq<(Seq<u8>, Extent)>, live: Set<Seq<u8>>, n: int, i: int)
    requires
        0 <= i < n <= entries.len(),
        live.contains(entries[i].0),
    ensures
        kept_entries(entries, live, i).len() < kept_entries(entries, live, n).len(),
        kept_entries(entries, live, n)[kept_entries(entries, live, i).len() as int] == (
            entries[i].0,
            Extent { offset: (kept_len(entries, live, i) + 4) as u64, len: entries[i].1.len },
        ),
        kept_len(entries, live, i) + 4 + entries[i].1.len <= kept_len(entries, live, n),
    decreases n,
{
    if i < n - 1 {
        lemma_kept_at(entries, live, n - 1, i);
    }
}

/// The entry that a kept entry comes from.
proof fn lemma_kept_from(entries: Seq<(Seq<u8>, Extent)>, live: Set<Seq<u8>>, n: int, j: int) -> (i:
    int)
    requires
        0 <= n <= entries.len(),
        0 <= j < kept_entries(entries, live, n).len(),
    ensures
        0 <= i < n,
        live.contains(entries[i].0),
        kept_entries(entries, live, i).len() == j,
    decreases n,
{
    if live.contains(entries[n - 1].0) && j == kept_entries(entries, live, n - 1).len() {
        n - 1
    } else {
        lemma_kept_from(entries, live, n - 1, j)
    }
}

/// What the copied log holds in the place of a live entry.
proof fn lemma_copied_at(
    entries: Seq<(Seq<u8>, Extent)>,
    live: Set<Seq<u8>>,
    log: Seq<u8>,
    n: int,
    i: int,
)
    requires
        0 <= i < n <= entries.len(),
        live.contains(entries[i].0),
        forall|j: int|
            0 <= j < entries.len() && live.contains((#[trigger] entries[j]).0)
                ==> entries[j].1.offset + entries[j].1.len <= log.len(),
    ensures
        copied(log, live_entries(entries, live, n)).subrange(
            kept_len(entries, live, i) as int + 4,
            kept_len(entries, live, i) + 4 + entries[i].1.len,
        ) == bytes_at(log, entries[i].1),
    decreases n,
{
    let new_log = copied(log, live_entries(entries, live, n));
    let at = kept_len(entries, live, i) as int + 4;
    let len = entries[i].1.len;
    lemma_copied_len(entries, live, log, n - 1);
    lemma_copied_len(entries, live, log, n);
    lemma_kept_at(entries, live, n, i);
    let old_log = copied(log, live_entries(entries, live, n - 1));
    if live.contains(entries[n - 1].0) {
        assert(live_entries(entries, live, n).drop_last() =~= live_entries(entries, live, n - 1));
        assert(new_log == old_log + record(bytes_at(log, entries[n - 1].1)));
    }
    if i < n - 1 {
        lemma_kept_at(entries, live, n - 1, i);
        lemma_copied_at(entries, live, log, n - 1, i);
        assert(new_log.subrange(at, at + len) =~= old_log.subrange(at, at + len));
    } else {
        assert(new_log.subrange(at, at + len) =~= bytes_at(log, entries[i].1));
    }
}

proof fn lemma_copied_len(entries: Seq<(Seq<u8>, Extent)>, live: Set<Seq<u8>>, log: Seq<u8>, n: int)
    requires
        0 <= n <= entries.len(),
        forall|j: int|
            0 <= j < entries.len() && live.contains((#[trigger] entries[j]).0)
                ==> entries[j].1.offset + entries[j].1.len <= log.len(),
    ensures
        copied(log, live_entries(entries, live, n)).len() == kept_len(entries, live, n),
    decreases n,
{
    if n > 0 {
        lemma_copied_len(entries, live, log, n - 1);
        if live.contains(entries[n - 1].0) {
            assert(live_entries(entries, live, n).drop_last() =~= live_entries(
                entries,
                live,
                n - 1,
            ));
        }
    }
}

/// The index of a compacted store can be listed in ascending order.
pub proof fn lemma_compacted_entries(m: BlocksModel, live: Set<Seq<u8>>)
    requires
        ascending::<Hash, Extent>(m.entries()),
    ensures
        ascending::<Hash, Extent>(m.compacted(live).entries()),
        map_of(m.compacted(live).entries()) == m.compacted(live).index,
{
    lemma_kept(m.entries(), live, m.entries().len() as int);
    let kept = kept_entries(m.entries(), live, m.entries().len() as int);
    assert(ascending::<Hash, Extent>(kept) && map_of(kept) == m.compacted(live).index);
}

/// Compaction keeps the live blocks, with the same bytes, and drops all others.
/// Where every live block passed the check of [`BlockStore::copy_record`], it
/// leaves an intact store, whatever became of the others.
pub proof fn law_compaction_keeps_live_blocks(m: BlocksModel, live: Set<Seq<u8>>, log: Seq<u8>)
    requires
        m.passes(log, live),
        ascending::<Hash, Extent>(m.entries()),
        map_of(m.entries()) == m.index,
        m.framed() <= u64::MAX,
    ensures
        m.compacted(live).intact(m.compacted_log(live, log)),
        forall|k: Seq<u8>| #[trigger]
            m.compacted(live).index.contains_key(k) <==> m.index.contains_key(k) && live.contains(k),
        forall|k: Seq<u8>| #[trigger]
            m.compacted(live).index.contains_key(k) ==> bytes_at(
                m.compacted_log(live, log),
                m.compacted(live).index[k],
            ) == bytes_at(log, m.index[k]),
{
    let all = m.entries();
    let n = all.len() as int;
    let kept = kept_entries(all, live, n);
    let after = m.compacted(live);
    let new_log = m.compacted_log(live, log);
    assert forall|i: int| 0 <= i < n && live.contains((#[trigger] all[i]).0) implies all[i].1.offset
        + all[i].1.len <= log.len() by {
        lemma_map_of_entry::<Hash, Extent>(all, i);
        assert(m.index.contains_key(all[i].0));
    }
    lemma_copied_len(all, live, log, n);
    lemma_kept(all, live, n);
    lemma_covered_part(all, n);
    assert(all.take(n) =~= all);
    assert forall|k: Seq<u8>| #[trigger] after.index.contains_key(k) implies m.index.contains_key(k)
        && live.contains(k) && bytes_at(new_log, after.index[k]) == bytes_at(log, m.index[k])
        && after.index[k].offset + after.index[k].len <= new_log.len() by {
        let j = lemma_map_of_key(kept, k);
        let i = lemma_kept_from(all, live, n, j);
        lemma_kept_at(all, live, n, i);
        lemma_copied_at(all, live, log, n, i);
        lemma_map_of_entry::<Hash, Extent>(all, i);
    }
    assert forall|k: Seq<u8>| m.index.contains_key(k) && live.contains(k) implies #[trigger] after.index.contains_key(
        k,
    ) by {
        let i = lemma_map_of_key(all, k);
        lemma_kept_at(all, live, n, i);
        lemma_map_of_entry::<Hash, Extent>(kept, kept_entries(all, live, i).len() as int);
    }
}

/// A run over all stored blocks that verifies each against its checksum.
pub struct Scrub {
    todo: Vec<(Hash, Extent)>,
    checked: usize,
    bad: Vec<String>,
}

/// The state of a [`Scrub`]: the blocks in order, how many of them were
/// checked, and the addresses of those that were found corrupt.
#[verifier::ext_equal]
pub struct ScrubModel {
    pub todo: Seq<(Seq<u8>, Extent)>,
    pub checked: int,
    pub bad: Seq<Seq<char>>,
}

impl ScrubModel {
    /// The next block checked against what was read of it; `None` is a read
    /// that failed.
    pub open spec fn after(self, read: Option<Seq<u8>>) -> ScrubModel {
        let k = self.todo[self.checked].0;
        ScrubModel {
            todo: self.todo,
            checked: self.checked + 1,
            bad: if read is Some && digest(read.unwrap()) == k {
                self.bad
            } else {
                self.bad.push(hex_text(k))
            },
        }
    }

    /// The first `n` reads taken, one after the other.
    pub open spec fn after_all(self, reads: Seq<Option<Seq<u8>>>, n: int) -> ScrubModel
        decreases n,
    {
        if n <= 0 {
            self
        } else {
            self.after_all(reads, n - 1).after(reads[n - 1])
        }
    }

    /// At the start of a run over a store.
    pub open spec fn start(m: BlocksModel) -> ScrubModel {
        ScrubModel { todo: m.entries(), checked: 0, bad: Seq::empty() }
    }
}

impl View for Scrub {
    type V = ScrubModel;

    closed spec fn view(&self) -> ScrubModel {
        ScrubModel {
            todo: Seq::new(self.todo@.len(), |i: int| (self.todo@[i].0@, self.todo@[i].1)),
            checked: self.checked as int,
            bad: texts(self.bad@),
        }
    }
}

impl Scrub {
    /// Where the next block is to be read; `None` after the last.
    pub fn next_read(&self) -> (r: Option<Extent>)
        ensures
            match r {
                Some(e) => 0 <= self@.checked < self@.todo.len() && e == self@.todo[self@.checked].1,
                None => self@.checked >= self@.todo.len(),
            },
    {
        if self.checked < self.todo.len() {
            Some(self.todo[self.checked].1)
        } else {
            None
        }
    }

    /// Checks the next block against what was read of it; `None` is a read
    /// that failed.
    pub fn check(&mut self, read: Option<Vec<u8>>)
        requires
            old(self)@.checked < old(self)@.todo.len(),
        ensures
            final(self)@ == old(self)@.after(
                match read {
                    Some(b) => Some(b@),
                    None => None,
                },
            ),
    {
        let ghost before = self.bad@;
        assert(self.checked < self.todo.len());
        let hash = self.todo[self.checked].0;
        let good = match &read {
            Some(buf) => same_hash(&hash_bytes(buf.as_slice()), &hash),
            None => false,
        };
        if !good {
            self.bad.push(hash_hex(&hash));
            assert(texts(self.bad@) =~= texts(before).push(hex_text(hash@)));
        }
        self.checked = self.checked + 1;
        assert(self@.todo =~= old(self)@.todo);
    }

    /// How many blocks were checked, and the addresses of the corrupt ones.
    pub fn finish(self) -> (r: (usize, Vec<String>))
        ensures
            r.0 == self@.checked,
            texts(r.1@) == self@.bad,
    {
        (self.checked, self.bad)
    }
}

/// A scrub of an intact log finds every block sound.
pub proof fn law_scrub_of_intact_log_is_clean(
    m: BlocksModel,
    log: Seq<u8>,
    reads: Seq<Option<Seq<u8>>>,
    n: int,
)
    requires
        m.intact(log),
        ascending::<Hash, Extent>(m.entries()),
        map_of(m.entries()) == m.index,
        0 <= n <= m.entries().len(),
        reads.len() == m.entries().len(),
        forall|i: int|
            0 <= i < reads.len() ==> #[trigger] reads[i] == Some(bytes_at(log, m.entries()[i].1)),
    ensures
        ScrubModel::start(m).after_all(reads, n) == (ScrubModel {
            todo: m.entries(),
            checked: n,
            bad: Seq::empty(),
        }),
    decreases n,
{
    if n > 0 {
        law_scrub_of_intact_log_is_clean(m, log, reads, n - 1);
        lemma_map_of_entry::<Hash, Extent>(m.entries(), n - 1);
        assert(reads[n - 1] == Some(bytes_at(log, m.entries()[n - 1].1)));
        assert(m.index.contains_key(m.entries()[n - 1].0));
    }
}

/// A scrub lists every block that could not be read or whose bytes have
/// another digest, and no other.
pub proof fn law_scrub_lists_the_corrupt_blocks(
    start: ScrubModel,
    reads: Seq<Option<Seq<u8>>>,
    n: int,
)
    requires
        start.checked == 0,
        start.bad.len() == 0,
        0 <= n <= start.todo.len(),
        n <= reads.len(),
    ensures
        start.after_all(reads, n).todo == start.todo,
        start.after_all(reads, n).checked == n,
        forall|i: int|
            #![trigger reads[i]]
            0 <= i < n && !(reads[i] is Some && digest(reads[i].unwrap()) == start.todo[i].0)
                ==> start.after_all(reads, n).bad.contains(hex_text(start.todo[i].0)),
        forall|t: Seq<char>| #[trigger]
            start.after_all(reads, n).bad.contains(t) ==> exists|i: int|
                0 <= i < n && t == hex_text(start.todo[i].0) && !(#[trigger] reads[i] is Some
                    && digest(reads[i].unwrap()) == start.todo[i].0),
    decreases n,
{
    if n > 0 {
        law_scrub_lists_the_corrupt_blocks(start, reads, n - 1);
        let before = start.after_all(reads, n - 1);
        let after = start.after_all(reads, n);
        assert(after == before.after(reads[n - 1]));
        let last = hex_text(start.todo[n - 1].0);
        assert forall|t: Seq<char>| before.bad.contains(t) implies after.bad.contains(t) by {
            let j = choose|j: int| 0 <= j < before.bad.len() && before.bad[j] == t;
            assert(after.bad[j] == t);
        }
        if after.bad.len() > before.bad.len() {
            assert(after.bad[before.bad.len() as int] == last);
        }
        assert forall|t: Seq<char>| #[trigger] after.bad.contains(t) implies exists|i: int|
            0 <= i < n && t == hex_text(start.todo[i].0) && !(#[trigger] reads[i] is Some
                && digest(reads[i].unwrap()) == start.todo[i].0) by {
            let j = choose|j: int| 0 <= j < after.bad.len() && after.bad[j] == t;
            if j < before.bad.len() {
                assert(before.bad[j] == t);
                assert(before.bad.contains(t));
            } else {
                let _ = reads[n - 1];
            }
        }
    }
}

/// The contents of the blocks.
pub open spec fn contents(blocks: Seq<Block>) -> Seq<Seq<u8>> {
    Seq::new(blocks.len(), |i: int| blocks[i]@)
}

/// One more extent adds its length.
pub proof fn lemma_covered_take(s: Seq<(Seq<u8>, Extent)>, i: int)
    requires
        0 <= i < s.len(),
    ensures
        covered(s.take(i + 1)) == covered(s.take(i)) + s[i].1.len,
{
    lemma_covered_insert(s.take(i), i, s[i]);
    assert(s.take(i).insert(i, s[i]) =~= s.take(i + 1));
}

pub proof fn lemma_covered_part(s: Seq<(Seq<u8>, Extent)>, i: int)
    requires
        0 <= i <= s.len(),
    ensures
        covered(s.take(i)) <= covered(s),
    decreases s.len() - i,
{
    if i < s.len() {
        lemma_covered_take(s, i);
        lemma_covered_part(s, i + 1);
    } else {
        assert(s.take(i) =~= s);
    }
}

} // verus!
