//! How requests are answered.
//!
//! [`DaemonState::handle_request`] answers what can be answered from what the
//! daemon knows, and says what has to be done outside for the rest: searching
//! with the model, walking directories, reading and writing the log. The
//! `finish_*` functions turn what came of that into the response.

use base64::Engine;
use vstd::prelude::*;

use crate::blockstore::{Scrub, ScrubModel, BLOCK_SIZE};
use crate::classifier::{nth_draw, xorshift64};
use crate::config::{lambda_outcome, setting_changed};
use crate::fs::{
    components, fault_text, pair_texts, FileData, FileRead, FsError, FsInfo, FsModel, ReadModel,
};
use crate::inode::kind_text;
use crate::pathcache::{entry_size, evictions_for, PathCacheModel};
use crate::period::{law_distant_draws_differ, BENCH_SEED};
use crate::protocol::{scored, Request, Response, ResponseModel, ScoredPath};
use crate::search::{is_ranked, rank_results};
use crate::sorted::SortedMap;
use crate::state::DaemonState;
use crate::store::{all_of, opened, path_key};
use crate::text::{
    bool_text, decimal, decimal_text, pad, padded, signed_decimal, signed_text, texts, trim,
    trim_back, trim_front,
};
use crate::tree::{dir_entries, ends, visited, Fault, InodeModel};

verus! {

/// Cap on binary payloads moved over the line protocol.
pub const MAX_IPC_BYTES: usize = 16 * 1024 * 1024;

/// The base64 text of a byte string.
pub uninterp spec fn base64_text(bytes: Seq<u8>) -> Seq<char>;

/// The bytes that a base64 text stands for, or what is wrong with it.
pub uninterp spec fn base64_bytes(text: Seq<char>) -> Result<Seq<u8>, Seq<char>>;

/// The base64 text of `n` bytes is not too large to be held.
pub open spec fn encodable(n: nat) -> bool {
    n / 3 * 4 + 4 <= isize::MAX
}

/// `base64::Engine::encode` with the `STANDARD` engine: the text depends on the
/// bytes alone, and decoding it with the same engine gives the bytes back.
#[verifier::external_body]
fn b64_encode(bytes: &[u8]) -> (s: String)
    requires
        encodable(bytes@.len()),
    ensures
        s@ == base64_text(bytes@),
        base64_bytes(s@) is Ok && base64_bytes(s@)->Ok_0 == bytes@,
{
    base64::engine::general_purpose::STANDARD.encode(bytes)
}

/// `base64::Engine::decode` with the `STANDARD` engine: the bytes, or the
/// message of the error, depend on the text alone.
#[verifier::external_body]
fn b64_decode(text: &str) -> (r: Result<Vec<u8>, String>)
    ensures
        match r {
            Ok(v) => base64_bytes(text@) matches Ok(b) && b == v@,
            Err(e) => base64_bytes(text@) matches Err(m) && m == e@,
        },
{
    base64::engine::general_purpose::STANDARD.decode(text.as_bytes()).map_err(|e| e.to_string())
}

/// The base64 text of a byte string.
pub fn encode_payload(bytes: &Vec<u8>) -> (s: String)
    requires
        encodable(bytes@.len()),
    ensures
        s@ == base64_text(bytes@),
        base64_bytes(s@) is Ok && base64_bytes(s@)->Ok_0 == bytes@,
{
    b64_encode(bytes.as_slice())
}

/// The bytes that a base64 text stands for.
pub fn decode_text(text: &str) -> (r: Result<Vec<u8>, String>)
    ensures
        match r {
            Ok(v) => base64_bytes(text@) matches Ok(b) && b == v@,
            Err(e) => base64_bytes(text@) matches Err(m) && m == e@,
        },
{
    b64_decode(text)
}

/// Whether a line is blank and to be passed over.
pub fn is_blank(line: &str) -> (r: bool)
    ensures
        r == (trim_back(trim_front(line@)).len() == 0),
{
    let t = trim(line);
    t.as_str().is_empty()
}

/// Answers a line that is no request.
pub fn bad_request(why: &str) -> (r: Response)
    ensures
        r@ == ResponseModel::failed("bad request: "@ + why@),
{
    Response::error("bad request: ".to_owned().concat(why))
}

/// What the daemon gets from outside along with a request.
pub struct Context {
    /// Seconds since the epoch.
    pub now: i64,
    /// Nanoseconds of a clock that never goes back.
    pub clock: u64,
    /// The decay rate as text.
    pub lambda_text: String,
    /// What the value of a `ConfigSet` is as a decay rate, or why it is none.
    pub lambda: Result<u64, String>,
    /// The share of look-ups that the block cache could answer, as text.
    pub hit_rate: String,
}

/// What comes of a request.
pub enum Outcome {
    /// The answer.
    Reply(Response),
    /// The answer, once the settings have been saved.
    SaveConfig(Response),
    /// The files for a query are to be found and scored.
    Search { query: String, opening: bool },
    /// These directories are to be indexed again.
    Reindex(Vec<String>),
    /// A file is to be written.
    WriteFile { path: String, data: FileData },
    /// A file is to be read.
    ReadFile(FileRead),
    /// Sizes are to be reported.
    Info(FsInfo),
    /// The blocks are to be verified.
    Scrub(Scrub),
    /// All but these blocks are to be dropped.
    Gc(SortedMap<crate::blockstore::Hash, ()>),
    /// A directory is to be hooked.
    Hook { dir: String },
    /// The throughput is to be measured.
    Bench { mb: usize },
}

/// `r` is the answer `m`.
pub open spec fn replies(r: Outcome, m: ResponseModel) -> bool {
    r matches Outcome::Reply(resp) && resp@ == m
}

/// A failed operation on the volume, or what else it gives.
pub open spec fn or_fault(r: Result<(), Fault>, done: Seq<char>) -> ResponseModel {
    match r {
        Ok(_) => ResponseModel::done(done),
        Err(f) => ResponseModel::failed(fault_text(f)),
    }
}

fn fault_response(e: FsError) -> (r: Response)
    ensures
        r@ == ResponseModel::failed(fault_text(e@)),
{
    Response::error(e.message())
}

fn outcome_response(r: Result<(), FsError>, done: String) -> (resp: Response)
    ensures
        resp@ == match r {
            Ok(_) => ResponseModel::done(done@),
            Err(e) => ResponseModel::failed(fault_text(e@)),
        },
{
    match r {
        Ok(_) => Response::ok(done),
        Err(e) => fault_response(e),
    }
}

/// The directory listing as lines.
pub open spec fn listing_lines(l: Seq<(Seq<char>, Seq<char>)>) -> Seq<Seq<char>> {
    if l.len() == 0 {
        seq!["(empty)"@]
    } else {
        Seq::new(l.len(), |i: int| padded(l[i].1, 4) + "  "@ + l[i].0)
    }
}

/// The metadata of an inode as lines.
pub open spec fn stat_lines(m: InodeModel) -> Seq<Seq<char>> {
    let (size, blocks, entries, mtime) = match m {
        InodeModel::File { size, blocks, mtime, .. } => (size as nat, blocks.len(), 0nat, mtime),
        InodeModel::Dir { entries, mtime } => (0nat, 0nat, dir_entries(entries).len(), mtime),
    };
    seq![
        "kind:    "@ + kind_text(m),
        "size:    "@ + decimal_text(size) + " bytes"@,
        "blocks:  "@ + decimal_text(blocks),
        "entries: "@ + decimal_text(entries),
        "mtime:   "@ + signed_text(mtime as int),
    ]
}

/// The sizes of a volume as lines; `ratio` is the dedup ratio.
pub open spec fn info_lines(i: FsInfo, ratio: Seq<char>) -> Seq<Seq<char>> {
    seq![
        "transaction (txg):   "@ + decimal_text(i.txg as nat),
        "files:               "@ + decimal_text(i.files as nat),
        "directories:         "@ + decimal_text(i.dirs as nat),
        "unique blocks:       "@ + decimal_text(i.unique_blocks as nat),
        "logical bytes:       "@ + decimal_text(i.logical_bytes as nat),
        "physical (live):     "@ + decimal_text(i.physical_referenced as nat),
        "physical (total):    "@ + decimal_text(i.physical_total as nat),
        "reclaimable bytes:   "@ + decimal_text(i.reclaimable_bytes as nat),
        "dedup ratio:         "@ + ratio + "x"@,
    ]
}

/// The snapshots as lines.
pub open spec fn snapshot_lines(l: Seq<(Seq<char>, u64)>) -> Seq<Seq<char>> {
    if l.len() == 0 {
        seq!["(no snapshots)"@]
    } else {
        Seq::new(l.len(), |i: int| l[i].0 + "  (txg "@ + decimal_text(l[i].1 as nat) + ")"@)
    }
}

/// The outcome of a scrub as lines.
pub open spec fn scrub_lines(checked: nat, bad: Seq<Seq<char>>) -> Seq<Seq<char>> {
    let first = "scrubbed "@ + decimal_text(checked) + " blocks"@;
    if bad.len() == 0 {
        seq![first, "no errors — all checksums valid"@]
    } else {
        seq![first, decimal_text(bad.len()) + " CORRUPT block(s):"@] + bad
    }
}

/// The hooked directories as lines.
pub open spec fn hook_lines(files: nat, dirs: Seq<Seq<char>>) -> Seq<Seq<char>> {
    seq!["indexed files: "@ + decimal_text(files), "hooked directories:"@] + Seq::new(
        dirs.len(),
        |i: int| "  "@ + dirs[i],
    )
}

/// The state of the model as lines.
pub open spec fn ai_lines(s: DaemonState) -> Seq<Seq<char>> {
    let c = s.classifier@;
    seq![
        "trained:        "@ + bool_text(c.classes.len() > 0),
        "model version:  "@ + decimal_text(c.version as nat),
        "online updates: "@ + decimal_text(c.updates as nat),
        "saved version:  "@ + decimal_text(s.saved_version as nat),
        "classes (dirs): "@ + decimal_text(c.classes.len()),
        "vocabulary:     "@ + decimal_text(c.terms.len()),
        "last full train: "@ + match s.last_retrain {
            Some(t) => t@,
            None => "never"@,
        },
    ]
}

/// `label` with a number behind it.
fn numbered(label: &str, n: u64) -> (s: String)
    ensures
        s@ == label@ + decimal_text(n as nat),
{
    let d = decimal(n);
    label.to_owned().concat(d.as_str())
}

/// A quoted name between two texts.
fn between(a: &str, name: &str, b: &str) -> (s: String)
    ensures
        s@ == a@ + name@ + b@,
{
    a.to_owned().concat(name).concat(b)
}

/// A `find` request: results that are still cached are served from RAM, which
/// refreshes their timer.
pub open spec fn find_handled(
    before: DaemonState,
    after: DaemonState,
    query: Seq<char>,
    clock: u64,
    r: Outcome,
) -> bool {
    &&& after.path_cache@ == before.path_cache@.looked_up(query, clock)
    &&& after.store == before.store
    &&& after.vfs == before.vfs
    &&& after.classifier == before.classifier
    &&& after.config == before.config
    &&& after.last_retrain == before.last_retrain
    &&& after.saved_version == before.saved_version
    &&& match before.path_cache@.result(query, clock) {
        Some(v) => replies(r, ResponseModel::found(v)),
        None => r matches Outcome::Search { query: q, opening } && q@ == query && !opening,
    }
}

/// A `config set` request.
pub open spec fn config_set_handled(
    before: DaemonState,
    after: DaemonState,
    key: Seq<char>,
    value: Seq<char>,
    lambda: Result<u64, Seq<char>>,
    r: Outcome,
) -> bool {
    &&& after.store == before.store
    &&& after.vfs == before.vfs
    &&& after.classifier == before.classifier
    &&& after.last_retrain == before.last_retrain
    &&& after.saved_version == before.saved_version
    &&& after.path_cache == before.path_cache
    &&& match r {
        Outcome::SaveConfig(resp) => setting_changed(
            before.config@,
            after.config@,
            key,
            value,
            lambda,
            Ok(()),
        ) && resp@ == ResponseModel::done(key + " = "@ + value),
        Outcome::Reply(resp) => resp@.error is Some && setting_changed(
            before.config@,
            after.config@,
            key,
            value,
            lambda,
            Err(resp@.error.unwrap()),
        ) && resp@ == ResponseModel::failed(resp@.error.unwrap()),
        _ => false,
    }
}

/// An `fs write` request: the payload is decoded and held against the limit.
pub open spec fn fs_write_handled(path: Seq<char>, data_b64: Seq<char>, r: Outcome) -> bool {
    match base64_bytes(data_b64) {
        Err(e) => replies(r, ResponseModel::failed("bad base64: "@ + e)),
        Ok(b) => if b.len() <= MAX_IPC_BYTES {
            r matches Outcome::WriteFile { path: p, data } && p@ == path && data@ == b
        } else {
            replies(r, ResponseModel::failed("payload exceeds 16 MiB IPC limit"@))
        },
    }
}

/// An `fs read` request.
pub open spec fn fs_read_handled(m: FsModel, path: Seq<char>, r: Outcome) -> bool {
    match m.inode_at(path) {
        Err(f) => replies(r, ResponseModel::failed(fault_text(f))),
        Ok(InodeModel::Dir { .. }) => replies(
            r,
            ResponseModel::failed(fault_text(Fault::IsDirectory(path))),
        ),
        Ok(InodeModel::File { blocks, data, .. }) => r matches Outcome::ReadFile(job) && job.wf()
            && job@ == ReadModel::start(blocks, data),
    }
}

/// The answer to an `fs ls` request.
pub open spec fn ls_response(m: FsModel, path: Seq<char>) -> ResponseModel {
    match m.listing(path) {
        Err(f) => ResponseModel::failed(fault_text(f)),
        Ok(l) => ResponseModel::listing(listing_lines(l)),
    }
}

/// The answer to an `fs stat` request.
pub open spec fn stat_response(m: FsModel, path: Seq<char>) -> ResponseModel {
    match m.inode_at(path) {
        Err(f) => ResponseModel::failed(fault_text(f)),
        Ok(inode) => ResponseModel::listing(stat_lines(inode)),
    }
}

/// An `fs info` request.
pub open spec fn info_handled(m: FsModel, r: Outcome) -> bool {
    match visited(m.inodes, m.state.root) {
        Err(f) => replies(r, ResponseModel::failed(fault_text(f))),
        Ok(seen) => r matches Outcome::Info(i) && m.info_of(i, seen),
    }
}

/// An `fs gc` request.
pub open spec fn gc_handled(m: FsModel, r: Outcome) -> bool {
    match m.pinned() {
        Err(f) => replies(r, ResponseModel::failed(fault_text(f))),
        Ok(seen) => r matches Outcome::Gc(live) && live@ == crate::fs::references(seen),
    }
}

/// How many inode ids a request may take.
pub open spec fn ids_needed(req: Request) -> nat {
    match req {
        Request::FsMkdir { path } => 2 * components(path@).len() + 1,
        Request::FsRm { path } => 2 * components(path@).len(),
        _ => 0,
    }
}

/// The walk that a request makes over the volume comes to an end.
pub open spec fn walk_ends_for(m: FsModel, req: Request) -> bool {
    match req {
        Request::FsInfo => ends(m.inodes, m.state.root),
        Request::FsGc => m.pinned_ends(),
        _ => true,
    }
}

/// What becomes of a request: the state afterwards and the outcome.
pub open spec fn handled(
    before: DaemonState,
    after: DaemonState,
    req: Request,
    ctx: Context,
    r: Outcome,
) -> bool {
    let m = before.vfs@;
    match req {
        Request::Find { query } => find_handled(before, after, query@, ctx.clock, r),
        Request::Open { query } => after.same(&before) && (r matches Outcome::Search {
            query: q,
            opening,
        } && q@ == query@ && opening),
        Request::Status => after.same(&before) && replies(
            r,
            ResponseModel {
                status: Some("running"@),
                indexed_files: Some(all_of(before.store@).len() as usize),
                last_retrain: crate::protocol::optional_text(before.last_retrain),
                ..ResponseModel::empty()
            },
        ),
        Request::Reindex => after.same(&before) && (r matches Outcome::Reindex(roots) && texts(
            roots@,
        ) == before.config@.root_dirs),
        Request::ConfigGet { key } => after.same(&before) && replies(
            r,
            match before.config@.value_of(key@, ctx.lambda_text@) {
                Some(v) => ResponseModel::done(v),
                None => ResponseModel::failed("unknown key: "@ + key@),
            },
        ),
        Request::ConfigSet { key, value } => config_set_handled(
            before,
            after,
            key@,
            value@,
            lambda_outcome(ctx.lambda),
            r,
        ),
        Request::FsWrite { path, data_b64 } => after.same(&before) && fs_write_handled(
            path@,
            data_b64@,
            r,
        ),
        Request::FsRead { path } => after.same(&before) && fs_read_handled(m, path@, r),
        Request::FsLs { path } => after.same(&before) && replies(r, ls_response(m, path@)),
        Request::FsMkdir { path } => {
            &&& after.same_but_vfs(&before)
            &&& after.vfs@ == m.made_dir(path@, ctx.now).0
            &&& replies(
                r,
                or_fault(m.made_dir(path@, ctx.now).1, "created directory "@ + path@),
            )
        },
        Request::FsRm { path } => {
            &&& after.same_but_vfs(&before)
            &&& after.vfs@ == m.removed(path@, ctx.now).0
            &&& replies(r, or_fault(m.removed(path@, ctx.now).1, "removed "@ + path@))
        },
        Request::FsStat { path } => after.same(&before) && replies(r, stat_response(m, path@)),
        Request::FsInfo => after.same(&before) && info_handled(m, r),
        Request::FsSnapshot { name } => {
            &&& after.same_but_vfs(&before)
            &&& after.vfs@ == (FsModel { snapshots: m.snapshots.insert(name@, m.state), ..m })
            &&& replies(r, ResponseModel::done("snapshot '"@ + name@ + "' created"@))
        },
        Request::FsSnapshots => after.same(&before) && replies(
            r,
            ResponseModel::listing(snapshot_lines(m.snapshot_list())),
        ),
        Request::FsRollback { name } => {
            &&& after.same_but_vfs(&before)
            &&& after.vfs@ == m.rolled_back(name@).0
            &&& replies(
                r,
                or_fault(
                    m.rolled_back(name@).1,
                    "rolled back to snapshot '"@ + name@ + "'"@,
                ),
            )
        },
        Request::FsScrub => after.same(&before) && (r matches Outcome::Scrub(s) && s@
            == ScrubModel::start(m.blocks)),
        Request::FsGc => after.same(&before) && gc_handled(m, r),
        Request::Hook { dir } => after.same(&before) && (r matches Outcome::Hook { dir: d } && d@
            == dir@),
        Request::HookStatus => after.same(&before) && replies(
            r,
            ResponseModel::listing(
                hook_lines(all_of(before.store@).len(), before.config@.root_dirs),
            ),
        ),
        Request::Ai => after.same(&before) && replies(r, ResponseModel::listing(ai_lines(before))),
        Request::Cache => after.same(&before) && replies(
            r,
            ResponseModel::listing(cache_lines(before, ctx.hit_rate@)),
        ),
        Request::Bench { mb } => after.same(&before) && (r matches Outcome::Bench { mb: n } && n
            == bench_mebibytes(mb)),
    }
}

/// Both caches as lines; `hit_rate` is that of the block cache.
pub open spec fn cache_lines(s: DaemonState, hit_rate: Seq<char>) -> Seq<Seq<char>> {
    let b = s.vfs@.blocks.cache;
    let p = s.path_cache@;
    seq![
        "block cache:"@,
        "  capacity:   "@ + decimal_text(b.cap) + " bytes"@,
        "  resident:   "@ + decimal_text(b.resident()) + " bytes"@,
        "  hits:       "@ + decimal_text(b.hits as nat),
        "  misses:     "@ + decimal_text(b.misses as nat),
        "  hit rate:   "@ + hit_rate,
        "  promotions: "@ + decimal_text(b.promotions as nat),
        "  evictions:  "@ + decimal_text(b.evictions as nat),
        "path cache:"@,
        "  ttl:        "@ + decimal_text((p.ttl / 1_000_000_000) as nat) + " s"@,
        "  capacity:   "@ + decimal_text(p.cap) + " bytes"@,
        "  resident:   "@ + decimal_text(crate::pathcache::resident(p.map)) + " bytes"@,
        "  hits:       "@ + decimal_text(p.hits as nat),
        "  misses:     "@ + decimal_text(p.misses as nat),
        "  expired:    "@ + decimal_text(p.expired as nat),
        "  evictions:  "@ + decimal_text(p.evictions as nat),
    ]
}

/// How many MiB a benchmark moves: at least one and at most 1024.
pub open spec fn bench_mebibytes(mb: usize) -> usize {
    if mb < 1 {
        1
    } else if mb > 1024 {
        1024
    } else {
        mb
    }
}

impl DaemonState {
    fn find_cached(&mut self, query: String, clock: u64) -> (r: Outcome)
        requires
            old(self).wf(),
            clock + old(self).path_cache@.ttl <= u64::MAX,
        ensures
            final(self).wf(),
            find_handled(*old(self), *final(self), query@, clock, r),
    {
        match self.path_cache.get(query.as_str(), clock) {
            Some(v) => {
                let mut resp = Response::empty();
                resp.results = Some(v);
                Outcome::Reply(resp)
            },
            None => Outcome::Search { query, opening: false },
        }
    }

    fn status(&self) -> (r: Response)
        ensures
            r@ == (ResponseModel {
                status: Some("running"@),
                indexed_files: Some(all_of(self.store@).len() as usize),
                last_retrain: crate::protocol::optional_text(self.last_retrain),
                ..ResponseModel::empty()
            }),
    {
        let mut resp = Response::empty();
        resp.status = Some("running".to_owned());
        resp.indexed_files = Some(self.store.len());
        resp.last_retrain = match &self.last_retrain {
            Some(t) => Some(t.clone()),
            None => None,
        };
        resp
    }

    fn config_get(&self, key: &str, lambda_text: &str) -> (r: Response)
        ensures
            r@ == match self.config@.value_of(key@, lambda_text@) {
                Some(v) => ResponseModel::done(v),
                None => ResponseModel::failed("unknown key: "@ + key@),
            },
    {
        match self.config.get(key, lambda_text) {
            Some(v) => Response::ok(v),
            None => Response::error("unknown key: ".to_owned().concat(key)),
        }
    }

    fn config_set(&mut self, key: &str, value: &str, lambda: Result<u64, String>) -> (r: Outcome)
        requires
            old(self).wf(),
        ensures
            final(self).wf(),
            config_set_handled(
                *old(self),
                *final(self),
                key@,
                value@,
                lambda_outcome(lambda),
                r,
            ),
    {
        match self.config.set(key, value, lambda) {
            Ok(_) => Outcome::SaveConfig(Response::ok(between(key, " = ", value))),
            Err(e) => Outcome::Reply(Response::error(e)),
        }
    }

    fn fs_ls(&mut self, path: &str) -> (r: Response)
        requires
            old(self).wf(),
        ensures
            final(self).wf(),
            final(self).same(old(self)),
            r@ == ls_response(old(self).vfs@, path@),
    {
        match self.vfs.readdir(path) {
            Err(e) => fault_response(e),
            Ok(entries) => Response::lines(list_lines(&entries)),
        }
    }

    fn fs_stat(&mut self, path: &str) -> (r: Response)
        requires
            old(self).wf(),
        ensures
            final(self).wf(),
            final(self).same(old(self)),
            r@ == stat_response(old(self).vfs@, path@),
    {
        match self.vfs.stat(path) {
            Err(e) => fault_response(e),
            Ok(st) => {
                let mut v: Vec<String> = Vec::new();
                v.push("kind:    ".to_owned().concat(st.kind.as_str()));
                v.push(numbered("size:    ", st.size).concat(" bytes"));
                v.push(numbered("blocks:  ", st.blocks as u64));
                v.push(numbered("entries: ", st.entries as u64));
                let t = signed_decimal(st.mtime);
                v.push("mtime:   ".to_owned().concat(t.as_str()));
                assert(texts(v@) =~= stat_lines(old(self).vfs@.inode_at(path@)->Ok_0));
                Response::lines(v)
            },
        }
    }

    fn fs_snapshots(&self) -> (r: Response)
        ensures
            r@ == ResponseModel::listing(snapshot_lines(self.vfs@.snapshot_list())),
    {
        let snaps = self.vfs.list_snapshots();
        let ghost want = self.vfs@.snapshot_list();
        let mut v: Vec<String> = Vec::new();
        if snaps.len() == 0 {
            assert(want.len() == 0);
            v.push("(no snapshots)".to_owned());
            assert(texts(v@) =~= snapshot_lines(want));
            return Response::lines(v);
        }
        assert(want.len() == snaps@.len());
        let mut i: usize = 0;
        while i < snaps.len()
            invariant
                want == crate::fs::snapshot_list(snaps@),
                i <= snaps@.len(),
                v@.len() == i,
                forall|j: int|
                    0 <= j < i ==> (#[trigger] v@[j])@ == want[j].0 + "  (txg "@ + decimal_text(
                        want[j].1 as nat,
                    ) + ")"@,
            decreases snaps@.len() - i,
        {
            assert(want[i as int] == (snaps@[i as int].0@, snaps@[i as int].1));
            let d = decimal(snaps[i].1);
            v.push(between(snaps[i].0.as_str(), "  (txg ", d.as_str()).concat(")"));
            i = i + 1;
        }
        assert(texts(v@) =~= snapshot_lines(want));
        Response::lines(v)
    }

    fn hook_status(&self) -> (r: Response)
        ensures
            r@ == ResponseModel::listing(
                hook_lines(all_of(self.store@).len(), self.config@.root_dirs),
            ),
    {
        let ghost dirs = self.config@.root_dirs;
        let mut v: Vec<String> = Vec::new();
        v.push(numbered("indexed files: ", self.store.len() as u64));
        v.push("hooked directories:".to_owned());
        let mut i: usize = 0;
        while i < self.config.root_dirs.len()
            invariant
                dirs == texts(self.config.root_dirs@),
                i <= self.config.root_dirs@.len(),
                v@.len() == i + 2,
                v@[0]@ == "indexed files: "@ + decimal_text(all_of(self.store@).len()),
                v@[1]@ == "hooked directories:"@,
                forall|j: int| 0 <= j < i ==> v@[j + 2]@ == "  "@ + #[trigger] dirs[j],
            decreases self.config.root_dirs@.len() - i,
        {
            let ghost before = v@;
            v.push("  ".to_owned().concat(self.config.root_dirs[i].as_str()));
            proof {
                assert forall|j: int| 0 <= j < i + 1 implies v@[j + 2]@ == "  "@
                    + #[trigger] dirs[j] by {
                    if j < i {
                        assert(v@[j + 2] == before[j + 2]);
                    }
                }
            }
            i = i + 1;
        }
        proof {
            let want = hook_lines(all_of(self.store@).len(), dirs);
            assert forall|j: int| 0 <= j < want.len() implies texts(v@)[j] == want[j] by {
                if j >= 2 {
                    assert(v@[(j - 2) + 2]@ == "  "@ + dirs[j - 2]);
                }
            }
            assert(texts(v@) =~= want);
        }
        Response::lines(v)
    }

    fn ai_status(&self) -> (r: Response)
        ensures
            r@ == ResponseModel::listing(ai_lines(*self)),
    {
        let mut v: Vec<String> = Vec::new();
        v.push(
            "trained:        ".to_owned().concat(
                if self.classifier.is_trained() {
                    "true"
                } else {
                    "false"
                },
            ),
        );
        v.push(numbered("model version:  ", self.classifier.version()));
        v.push(numbered("online updates: ", self.classifier.online_updates()));
        v.push(numbered("saved version:  ", self.saved_version));
        v.push(numbered("classes (dirs): ", self.classifier.num_classes() as u64));
        v.push(numbered("vocabulary:     ", self.classifier.vocab_size() as u64));
        let last = match &self.last_retrain {
            Some(t) => t.clone(),
            None => "never".to_owned(),
        };
        v.push("last full train: ".to_owned().concat(last.as_str()));
        assert(texts(v@) =~= ai_lines(*self));
        Response::lines(v)
    }

    fn cache_status(&self, hit_rate: &str) -> (r: Response)
        requires
            self.wf(),
        ensures
            r@ == ResponseModel::listing(cache_lines(*self, hit_rate@)),
    {
        let b = self.vfs.cache_stats();
        let p = self.path_cache.stats();
        let mut v: Vec<String> = Vec::new();
        v.push("block cache:".to_owned());
        v.push(numbered("  capacity:   ", b.cap_bytes).concat(" bytes"));
        v.push(numbered("  resident:   ", b.resident_bytes).concat(" bytes"));
        v.push(numbered("  hits:       ", b.hits));
        v.push(numbered("  misses:     ", b.misses));
        v.push("  hit rate:   ".to_owned().concat(hit_rate));
        v.push(numbered("  promotions: ", b.promotions));
        v.push(numbered("  evictions:  ", b.evictions));
        v.push("path cache:".to_owned());
        v.push(numbered("  ttl:        ", p.ttl_secs).concat(" s"));
        v.push(numbered("  capacity:   ", p.cap_bytes as u64).concat(" bytes"));
        v.push(numbered("  resident:   ", p.resident_bytes as u64).concat(" bytes"));
        v.push(numbered("  hits:       ", p.hits));
        v.push(numbered("  misses:     ", p.misses));
        v.push(numbered("  expired:    ", p.expired));
        v.push(numbered("  evictions:  ", p.evictions));
        assert(texts(v@) =~= cache_lines(*self, hit_rate@));
        Response::lines(v)
    }
}

/// The directory listing as lines.
fn list_lines(entries: &Vec<(String, String)>) -> (v: Vec<String>)
    ensures
        texts(v@) == listing_lines(pair_texts(entries@)),
{
    let ghost l = pair_texts(entries@);
    let mut v: Vec<String> = Vec::new();
    if entries.len() == 0 {
        v.push("(empty)".to_owned());
        assert(texts(v@) =~= listing_lines(l));
        return v;
    }
    let mut i: usize = 0;
    while i < entries.len()
        invariant
            l == pair_texts(entries@),
            i <= entries@.len(),
            v@.len() == i,
            forall|j: int|
                0 <= j < i ==> (#[trigger] v@[j])@ == padded(l[j].1, 4) + "  "@ + l[j].0,
        decreases entries@.len() - i,
    {
        assert(l[i as int] == (entries@[i as int].0@, entries@[i as int].1@));
        let kind = pad(entries[i].1.as_str(), 4);
        v.push(kind.concat("  ").concat(entries[i].0.as_str()));
        i = i + 1;
    }
    assert(texts(v@) =~= listing_lines(l));
    v
}

/// Decodes the payload of an `fs write` request.
pub fn decode_payload(path: String, data_b64: &str) -> (r: Outcome)
    ensures
        fs_write_handled(path@, data_b64@, r),
{
    match b64_decode(data_b64) {
        Err(e) => Outcome::Reply(
            Response::error("bad base64: ".to_owned().concat(e.as_str())),
        ),
        Ok(bytes) => if bytes.len() <= MAX_IPC_BYTES {
            Outcome::WriteFile { path, data: FileData::new(bytes.as_slice()) }
        } else {
            Outcome::Reply(Response::error("payload exceeds 16 MiB IPC limit".to_owned()))
        },
    }
}

/// A copy of texts.
pub fn copy_texts(v: &Vec<String>) -> (r: Vec<String>)
    ensures
        texts(r@) == texts(v@),
{
    let mut r: Vec<String> = Vec::new();
    let mut i: usize = 0;
    while i < v.len()
        invariant
            i <= v@.len(),
            r@.len() == i,
            forall|j: int| 0 <= j < i ==> (#[trigger] r@[j])@ == v@[j]@,
        decreases v@.len() - i,
    {
        r.push(v[i].clone());
        i = i + 1;
    }
    assert(texts(r@) =~= texts(v@));
    r
}

/// `after` is the path cache `before` with the results of a query cached; there
/// is nothing to cache where there are none or they are larger than the budget.
pub open spec fn result_cached(
    before: PathCacheModel,
    after: PathCacheModel,
    query: Seq<char>,
    results: Seq<(Seq<char>, u64)>,
    clock: u64,
) -> bool {
    if results.len() == 0 || entry_size(query, results) > before.cap {
        after == before
    } else {
        exists|paths: Vec<ScoredPath>, n: nat|
            {
                &&& scored(paths@) == results
                &&& evictions_for(
                    before.map.remove(query),
                    entry_size(query, results),
                    before.cap,
                    n,
                )
                &&& after == #[trigger] before.inserted(query, paths, clock, n)
            }
    }
}

/// A query whose results were just cached is answered from the cache as long as
/// they live.
pub proof fn law_repeated_query_is_served_from_the_cache(
    before: PathCacheModel,
    after: PathCacheModel,
    query: Seq<char>,
    results: Seq<(Seq<char>, u64)>,
    clock: u64,
    later: u64,
)
    requires
        result_cached(before, after, query, results, clock),
        results.len() > 0,
        entry_size(query, results) <= before.cap,
        clock + before.ttl <= u64::MAX,
        clock <= later < clock + before.ttl,
    ensures
        after.result(query, later) == Some(results),
{
}

impl DaemonState {
    /// Whether the volume has the inode ids that a request may take, and the
    /// walk that it makes comes to an end.
    pub fn can_handle(&self, req: &Request) -> (r: bool)
        requires
            self.wf(),
        ensures
            r == (self.vfs@.ids_left(ids_needed(*req)) && walk_ends_for(self.vfs@, *req)),
    {
        let ends: bool = match req {
            Request::FsInfo => self.vfs.walk_ends(),
            Request::FsGc => self.vfs.all_walks_end(),
            _ => true,
        };
        if !ends {
            return false;
        }
        let n: usize = match req {
            Request::FsMkdir { path } => crate::fs::split(path.as_str()).len(),
            Request::FsRm { path } => crate::fs::split(path.as_str()).len(),
            _ => {
                return self.vfs.ids_left(0);
            },
        };
        let half: u64 = u64::MAX / 2;
        if n as u64 > half {
            return false;
        }
        match req {
            Request::FsMkdir { .. } => self.vfs.ids_left(2 * n as u64 + 1),
            _ => self.vfs.ids_left(2 * n as u64),
        }
    }

    /// Answers a request, or says what has to be done for it.
    pub fn handle_request(&mut self, req: Request, ctx: Context) -> (r: Outcome)
        requires
            old(self).wf(),
            ctx.clock + old(self).path_cache@.ttl <= u64::MAX,
            old(self).vfs@.ids_left(ids_needed(req)),
            walk_ends_for(old(self).vfs@, req),
        ensures
            final(self).wf(),
            handled(*old(self), *final(self), req, ctx, r),
    {
        match req {
            Request::Find { query } => self.find_cached(query, ctx.clock),
            Request::Open { query } => Outcome::Search { query, opening: true },
            Request::Status => Outcome::Reply(self.status()),
            Request::Reindex => Outcome::Reindex(copy_texts(&self.config.root_dirs)),
            Request::ConfigGet { key } => {
                Outcome::Reply(self.config_get(key.as_str(), ctx.lambda_text.as_str()))
            },
            Request::ConfigSet { key, value } => {
                self.config_set(key.as_str(), value.as_str(), ctx.lambda)
            },
            Request::FsWrite { path, data_b64 } => decode_payload(path, data_b64.as_str()),
            Request::FsRead { path } => match self.vfs.read_file(path.as_str()) {
                Ok(job) => Outcome::ReadFile(job),
                Err(e) => Outcome::Reply(fault_response(e)),
            },
            Request::FsLs { path } => Outcome::Reply(self.fs_ls(path.as_str())),
            Request::FsMkdir { path } => {
                let res = self.vfs.mkdir(path.as_str(), ctx.now);
                let done = "created directory ".to_owned().concat(path.as_str());
                Outcome::Reply(outcome_response(res, done))
            },
            Request::FsRm { path } => {
                let res = self.vfs.remove(path.as_str(), ctx.now);
                let done = "removed ".to_owned().concat(path.as_str());
                Outcome::Reply(outcome_response(res, done))
            },
            Request::FsStat { path } => Outcome::Reply(self.fs_stat(path.as_str())),
            Request::FsInfo => match self.vfs.info() {
                Ok(info) => Outcome::Info(info),
                Err(e) => Outcome::Reply(fault_response(e)),
            },
            Request::FsSnapshot { name } => {
                self.vfs.snapshot(name.as_str());
                Outcome::Reply(Response::ok(between("snapshot '", name.as_str(), "' created")))
            },
            Request::FsSnapshots => Outcome::Reply(self.fs_snapshots()),
            Request::FsRollback { name } => {
                let res = self.vfs.rollback(name.as_str());
                let done = between("rolled back to snapshot '", name.as_str(), "'");
                Outcome::Reply(outcome_response(res, done))
            },
            Request::FsScrub => Outcome::Scrub(self.vfs.scrub()),
            Request::FsGc => match self.vfs.gc_live() {
                Ok(live) => Outcome::Gc(live),
                Err(e) => Outcome::Reply(fault_response(e)),
            },
            Request::Hook { dir } => Outcome::Hook { dir },
            Request::HookStatus => Outcome::Reply(self.hook_status()),
            Request::Ai => Outcome::Reply(self.ai_status()),
            Request::Cache => Outcome::Reply(self.cache_status(ctx.hit_rate.as_str())),
            Request::Bench { mb } => {
                let n: usize = if mb < 1 {
                    1
                } else if mb > 1024 {
                    1024
                } else {
                    mb
                };
                Outcome::Bench { mb: n }
            },
        }
    }

    /// Answers a `find` request with the scored results of a search, which are
    /// cached unless there are none. `dedup` is false where the results are
    /// exact matches.
    pub fn finish_find(&mut self, query: String, results: &Vec<ScoredPath>, dedup: bool, clock: u64) -> (r:
        Response)
        requires
            old(self).wf(),
            clock + old(self).path_cache@.ttl <= u64::MAX,
        ensures
            final(self).wf(),
            final(self).store == old(self).store,
            final(self).vfs == old(self).vfs,
            final(self).classifier == old(self).classifier,
            final(self).config == old(self).config,
            final(self).last_retrain == old(self).last_retrain,
            final(self).saved_version == old(self).saved_version,
            exists|ranked: Seq<(Seq<char>, u64)>|
                {
                    &&& #[trigger] is_ranked(
                        scored(results@),
                        dedup,
                        old(self).config.max_results,
                        ranked,
                    )
                    &&& r@ == ResponseModel::found(ranked)
                    &&& result_cached(
                        old(self).path_cache@,
                        final(self).path_cache@,
                        query@,
                        ranked,
                        clock,
                    )
                },
    {
        let ranked = rank_results(results, dedup, self.config.max_results);
        let ghost all = scored(ranked@);
        assert(is_ranked(scored(results@), dedup, self.config.max_results, all));
        let copy = crate::protocol::copy_paths(&ranked);
        assert(scored(copy@).len() == copy@.len());
        self.path_cache.insert(query, copy, clock);
        let mut resp = Response::empty();
        resp.results = Some(ranked);
        resp
    }

    /// Answers an `open` request with the scored results of a search: the best
    /// match is opened and the open is recorded.
    pub fn finish_open(&mut self, results: &Vec<ScoredPath>, dedup: bool, now: i64) -> (r: Response)
        requires
            old(self).wf(),
        ensures
            final(self).wf(),
            final(self).vfs == old(self).vfs,
            final(self).classifier == old(self).classifier,
            final(self).config == old(self).config,
            final(self).last_retrain == old(self).last_retrain,
            final(self).saved_version == old(self).saved_version,
            final(self).path_cache == old(self).path_cache,
            exists|best: Seq<(Seq<char>, u64)>|
                {
                    &&& #[trigger] is_ranked(scored(results@), dedup, 1, best)
                    &&& if best.len() == 0 {
                        r@ == ResponseModel::failed("no match found"@) && final(self).store@
                            == old(self).store@
                    } else {
                        let h = path_key(best[0].0);
                        &&& r@ == (ResponseModel {
                            opened_path: Some(best[0].0),
                            ..ResponseModel::empty()
                        })
                        &&& final(self).store@ == if old(self).store@.contains_key(h) {
                            old(self).store@.insert(h, opened(old(self).store@[h], now))
                        } else {
                            old(self).store@
                        }
                    }
                },
    {
        let best = rank_results(results, dedup, 1);
        let ghost all = scored(best@);
        assert(is_ranked(scored(results@), dedup, 1, all));
        assert(all.len() == best@.len());
        if best.len() == 0 {
            return Response::error("no match found".to_owned());
        }
        assert(all[0] == (best@[0].path@, best@[0].score));
        let _ = self.store.touch_open(best[0].path.as_str(), now);
        let mut resp = Response::empty();
        resp.opened_path = Some(best[0].path.clone());
        resp
    }

    /// Answers an `fs write` request whose log bytes have been written.
    pub fn finish_write(&mut self, path: &str, data: &FileData, now: i64) -> (r: Response)
        requires
            old(self).wf(),
            old(self).vfs@.can_store(data@),
            old(self).vfs@.ids_left(2 * components(path@).len() + 1),
        ensures
            final(self).wf(),
            final(self).same_but_vfs(old(self)),
            final(self).vfs@ == old(self).vfs@.written(path@, data@, now).0,
            r@ == or_fault(
                old(self).vfs@.written(path@, data@, now).1,
                "wrote "@ + decimal_text(data@.len()) + " bytes"@,
            ),
    {
        let n: usize = data.len();
        let res = self.vfs.write_file(path, data, now);
        outcome_response(res, numbered("wrote ", n as u64).concat(" bytes"))
    }

    /// Answers an `fs gc` request whose new log has been written.
    pub fn finish_gc(&mut self, live: &SortedMap<crate::blockstore::Hash, ()>) -> (r: Response)
        requires
            old(self).wf(),
            old(self).vfs@.pinned() is Ok,
            live@ == crate::fs::references(old(self).vfs@.pinned()->Ok_0),
        ensures
            final(self).wf(),
            final(self).same_but_vfs(old(self)),
            final(self).vfs@ == (FsModel {
                blocks: old(self).vfs@.blocks.compacted(live@.dom()),
                ..old(self).vfs@
            }),
            r@ == ({
                let before = old(self).vfs@.blocks;
                let after = final(self).vfs@.blocks;
                let kept = after.entries().len();
                ResponseModel::listing(
                    seq![
                        "kept blocks:     "@ + decimal_text(kept),
                        "dropped blocks:  "@ + decimal_text(
                            (before.entries().len() - kept) as nat,
                        ),
                        "reclaimed bytes: "@ + decimal_text(
                            (before.physical() - after.physical()) as nat,
                        ),
                    ],
                )
            }),
    {
        let stats = self.vfs.gc(live);
        let mut v: Vec<String> = Vec::new();
        v.push(numbered("kept blocks:     ", stats.kept_blocks as u64));
        v.push(numbered("dropped blocks:  ", stats.dropped_blocks as u64));
        v.push(numbered("reclaimed bytes: ", stats.bytes_reclaimed));
        proof {
            let before = old(self).vfs@.blocks;
            let after = self.vfs@.blocks;
            let kept = after.entries().len();
            assert(texts(v@) =~= seq![
                "kept blocks:     "@ + decimal_text(kept),
                "dropped blocks:  "@ + decimal_text((before.entries().len() - kept) as nat),
                "reclaimed bytes: "@ + decimal_text(
                    (before.physical() - after.physical()) as nat,
                ),
            ]);
        }
        Response::lines(v)
    }

    /// Records a directory as hooked. The text by which it is known, without the
    /// prefix of extended-length Windows paths, and whether the settings have to
    /// be saved.
    pub fn hook_root(&mut self, canonical: &str) -> (r: (String, bool))
        requires
            old(self).wf(),
        ensures
            final(self).wf(),
            r.0@ == without_verbatim(canonical@),
            r.1 == !old(self).config@.root_dirs.contains(r.0@),
            final(self).config@ == (crate::config::ConfigModel {
                root_dirs: with_root(old(self).config@.root_dirs, r.0@),
                ..old(self).config@
            }),
            final(self).store == old(self).store,
            final(self).vfs == old(self).vfs,
            final(self).classifier == old(self).classifier,
            final(self).last_retrain == old(self).last_retrain,
            final(self).saved_version == old(self).saved_version,
            final(self).path_cache == old(self).path_cache,
    {
        let root = strip_verbatim(canonical);
        let added = self.config.add_root(root.as_str());
        (root, added)
    }

    /// Begins to carry out a `hook` request. `is_dir` says whether `dir` is an
    /// existing directory, and `canonical` is its canonical path, where there is
    /// one.
    pub fn hook(&mut self, dir: &str, is_dir: bool, canonical: Option<String>) -> (r: Hook)
        requires
            old(self).wf(),
        ensures
            final(self).wf(),
            hook_begun(*old(self), *final(self), dir@, is_dir, canonical, r),
    {
        if !is_dir {
            return Hook::Refused(refuse_hook(dir));
        }
        let (root, save) = match canonical {
            Some(c) => self.hook_root(c.as_str()),
            None => self.hook_root(dir),
        };
        Hook::Index { root, save }
    }
}

/// The hooked directories with one more, if it is not there already.
pub open spec fn with_root(dirs: Seq<Seq<char>>, root: Seq<char>) -> Seq<Seq<char>> {
    if dirs.contains(root) {
        dirs
    } else {
        dirs.push(root)
    }
}

/// What has to be done for a `hook` request.
pub enum Hook {
    /// Nothing: this is the answer.
    Refused(Response),
    /// The directory has to be watched and indexed, and the settings have to be
    /// saved if `save` is set. [`finish_hook`] has the answer.
    Index { root: String, save: bool },
}

/// A `hook` request begun: what is not a directory is refused and changes
/// nothing, and a directory is recorded by its canonical path.
pub open spec fn hook_begun(
    before: DaemonState,
    after: DaemonState,
    dir: Seq<char>,
    is_dir: bool,
    canonical: Option<String>,
    r: Hook,
) -> bool {
    let root = without_verbatim(
        match canonical {
            Some(c) => c@,
            None => dir,
        },
    );
    if !is_dir {
        &&& r matches Hook::Refused(resp) && resp@ == ResponseModel::failed(
            "not a directory: "@ + dir,
        )
        &&& after == before
    } else {
        &&& r matches Hook::Index { root: x, save } && x@ == root && save
            == !before.config@.root_dirs.contains(root)
        &&& after.config@ == (crate::config::ConfigModel {
            root_dirs: with_root(before.config@.root_dirs, root),
            ..before.config@
        })
        &&& after.store == before.store
        &&& after.vfs == before.vfs
        &&& after.classifier == before.classifier
        &&& after.last_retrain == before.last_retrain
        &&& after.saved_version == before.saved_version
        &&& after.path_cache == before.path_cache
    }
}

/// What a `hook` request comes to once the directory has been indexed.
pub struct HookDone {
    pub response: Response,
    /// How many retrains are asked for.
    pub retrains: u64,
}

/// A `hook` request as a whole. What is not a directory is answered with an
/// error, and nothing else happens. A directory is recorded once, however often
/// it is hooked, beside those that were recorded before, and each request is
/// answered with success and asks for one retrain.
pub proof fn law_hook(
    before: DaemonState,
    after: DaemonState,
    dir: Seq<char>,
    is_dir: bool,
    canonical: Option<String>,
    step: Hook,
    count: usize,
    done: HookDone,
)
    requires
        hook_begun(before, after, dir, is_dir, canonical, step),
        step matches Hook::Index { root, .. } ==> hook_done(root@, count, done),
    ensures
        !is_dir ==> after == before && (step matches Hook::Refused(resp) && resp@.error == Some(
            "not a directory: "@ + dir,
        )),
        is_dir ==> {
            let dirs = after.config@.root_dirs;
            &&& step matches Hook::Index { root, .. } && dirs.contains(root@) && with_root(
                dirs,
                root@,
            ) == dirs
            &&& before.config@.root_dirs.is_prefix_of(dirs)
            &&& before.config@.root_dirs.no_duplicates() ==> dirs.no_duplicates()
            &&& done.response@.ok == Some(true)
            &&& done.retrains == 1
        },
{
    if is_dir {
        let root = step->root@;
        let dirs = before.config@.root_dirs;
        let now = after.config@.root_dirs;
        if !dirs.contains(root) {
            assert(now[dirs.len() as int] == root);
            assert forall|i: int, j: int|
                0 <= i < now.len() && 0 <= j < now.len() && i != j
                    && dirs.no_duplicates() implies now[i] != now[j] by {
                if i < dirs.len() {
                    assert(dirs[i] == now[i]);
                }
                if j < dirs.len() {
                    assert(dirs[j] == now[j]);
                }
            }
        }
    }
}

/// The path without the prefix of extended-length Windows paths.
pub open spec fn without_verbatim(path: Seq<char>) -> Seq<char> {
    if path.len() >= 4 && path.take(4) == seq!['\\', '\\', '?', '\\'] {
        path.skip(4)
    } else {
        path
    }
}

/// Takes the prefix of extended-length Windows paths off.
pub fn strip_verbatim(path: &str) -> (s: String)
    ensures
        s@ == without_verbatim(path@),
{
    let v = crate::text::chars_of(path);
    if v.len() >= 4 && v[0] == '\\' && v[1] == '\\' && v[2] == '?' && v[3] == '\\' {
        assert(v@.take(4) =~= seq!['\\', '\\', '?', '\\']);
        assert(v@.subrange(4, v@.len() as int) =~= v@.skip(4));
        crate::text::text_of(&v, 4, v.len())
    } else {
        proof {
            if path@.len() >= 4 {
                let p = path@.take(4);
                assert(p[0] == path@[0] && p[1] == path@[1] && p[2] == path@[2] && p[3] == path@[3]);
            }
        }
        path.to_owned()
    }
}

/// Answers a `reindex` request.
pub fn finish_reindex(count: usize) -> (r: Response)
    ensures
        r@ == ResponseModel::done("reindexed "@ + decimal_text(count as nat) + " files"@),
{
    Response::ok(numbered("reindexed ", count as u64).concat(" files"))
}

/// `r` is the answer to an `fs read` request: the content of the file as a
/// base64 text that stands for it, unless it is too large.
pub open spec fn read_answered(bytes: Seq<u8>, r: ResponseModel) -> bool {
    if bytes.len() > MAX_IPC_BYTES {
        r == ResponseModel::failed("file exceeds 16 MiB IPC limit; too large to read over IPC"@)
    } else {
        &&& r == (ResponseModel { data_b64: Some(base64_text(bytes)), ..ResponseModel::empty() })
        &&& base64_bytes(base64_text(bytes)) == Ok::<Seq<u8>, Seq<char>>(bytes)
    }
}

/// Answers an `fs read` request with the content of the file.
pub fn finish_read(bytes: &Vec<u8>) -> (r: Response)
    ensures
        read_answered(bytes@, r@),
{
    if bytes.len() > MAX_IPC_BYTES {
        return Response::error(
            "file exceeds 16 MiB IPC limit; too large to read over IPC".to_owned(),
        );
    }
    let mut resp = Response::empty();
    resp.data_b64 = Some(b64_encode(bytes.as_slice()));
    resp
}

/// Answers a request that failed on the volume.
pub fn finish_failed(e: FsError) -> (r: Response)
    ensures
        r@ == ResponseModel::failed(fault_text(e@)),
{
    fault_response(e)
}

/// Answers an `fs info` request; `ratio` is the dedup ratio.
pub fn finish_info(i: &FsInfo, ratio: &str) -> (r: Response)
    ensures
        r@ == ResponseModel::listing(info_lines(*i, ratio@)),
{
    let mut v: Vec<String> = Vec::new();
    v.push(numbered("transaction (txg):   ", i.txg));
    v.push(numbered("files:               ", i.files));
    v.push(numbered("directories:         ", i.dirs));
    v.push(numbered("unique blocks:       ", i.unique_blocks as u64));
    v.push(numbered("logical bytes:       ", i.logical_bytes));
    v.push(numbered("physical (live):     ", i.physical_referenced));
    v.push(numbered("physical (total):    ", i.physical_total));
    v.push(numbered("reclaimable bytes:   ", i.reclaimable_bytes));
    v.push(between("dedup ratio:         ", ratio, "x"));
    assert(texts(v@) =~= info_lines(*i, ratio@));
    Response::lines(v)
}

/// Answers an `fs scrub` request.
pub fn finish_scrub(checked: usize, bad: &Vec<String>) -> (r: Response)
    ensures
        r@ == ResponseModel::listing(scrub_lines(checked as nat, texts(bad@))),
{
    let mut v: Vec<String> = Vec::new();
    v.push(numbered("scrubbed ", checked as u64).concat(" blocks"));
    if bad.len() == 0 {
        v.push("no errors — all checksums valid".to_owned());
        assert(texts(bad@).len() == 0);
        assert(texts(v@) =~= scrub_lines(checked as nat, texts(bad@)));
        return Response::lines(v);
    }
    v.push(decimal(bad.len() as u64).concat(" CORRUPT block(s):"));
    let ghost head = texts(v@);
    let mut more = copy_texts(bad);
    let ghost tail = texts(more@);
    let ghost first = v@;
    let ghost second = more@;
    v.append(&mut more);
    assert(texts(v@) =~= texts(first) + texts(second));
    assert(texts(bad@).len() == bad@.len());
    assert(head =~= seq![
        "scrubbed "@ + decimal_text(checked as nat) + " blocks"@,
        decimal_text(texts(bad@).len()) + " CORRUPT block(s):"@,
    ]);
    Response::lines(v)
}

/// Refuses to hook what is not a directory.
pub fn refuse_hook(dir: &str) -> (r: Response)
    ensures
        r@ == ResponseModel::failed("not a directory: "@ + dir@),
{
    Response::error("not a directory: ".to_owned().concat(dir))
}

/// `done` is what a `hook` request comes to: an answer and one retrain.
pub open spec fn hook_done(root: Seq<char>, count: usize, done: HookDone) -> bool {
    &&& done.response@ == ResponseModel::done(
        "hooked onto "@ + root + " — indexed "@ + decimal_text(count as nat)
            + " files, learning enabled"@,
    )
    &&& done.retrains == 1
}

/// Answers a `hook` request once the directory has been indexed.
pub fn finish_hook(root: &str, count: usize) -> (done: HookDone)
    ensures
        hook_done(root@, count, done),
{
    let d = decimal(count as u64);
    let response = Response::ok(
        between("hooked onto ", root, " — indexed ").concat(d.as_str()).concat(
            " files, learning enabled",
        ),
    );
    HookDone { response, retrains: 1 }
}

/// The content of a benchmark: byte by byte the numbers that the generator
/// draws.
pub open spec fn bench_byte(i: int) -> u8 {
    crate::codec::le64(nth_draw(BENCH_SEED, i / 8 + 1))[i % 8]
}

/// The block at place `a` of a content.
pub open spec fn block_at(v: Seq<u8>, a: int) -> Seq<u8> {
    v.subrange(a * BLOCK_SIZE, (a + 1) * BLOCK_SIZE)
}

/// The content of a benchmark of `mb` MiB. No two of its blocks are equal, so
/// the block store cannot share any of them.
pub fn bench_payload(mb: usize) -> (v: Vec<u8>)
    requires
        1 <= mb <= 1024,
    ensures
        v@.len() == mb * 1024 * 1024,
        forall|i: int| 0 <= i < v@.len() ==> #[trigger] v@[i] == bench_byte(i),
        forall|a: int, b: int|
            0 <= a < b < mb * 16 ==> #[trigger] block_at(v@, a) != #[trigger] block_at(v@, b),
{
    let words: usize = mb * 131_072;
    let mut v: Vec<u8> = Vec::new();
    let mut state: u64 = BENCH_SEED;
    let mut k: usize = 0;
    while k < words
        invariant
            words == mb * 131_072,
            mb <= 1024,
            k <= words,
            v@.len() == 8 * k,
            state == nth_draw(BENCH_SEED, k as int),
            forall|i: int| 0 <= i < v@.len() ==> #[trigger] v@[i] == bench_byte(i),
        decreases words - k,
    {
        let x = xorshift64(&mut state);
        let b = crate::codec::u64_le(x);
        let ghost before = v@;
        v.extend_from_slice(b.as_slice());
        proof {
            assert(x == nth_draw(BENCH_SEED, k + 1));
            assert forall|i: int| 0 <= i < v@.len() implies #[trigger] v@[i] == bench_byte(i) by {
                if i < before.len() {
                    assert(v@[i] == before[i]);
                } else {
                    assert(v@[i] == b@[i - 8 * k]);
                    assert(i / 8 == k);
                    assert(i % 8 == i - 8 * k);
                }
            }
        }
        k = k + 1;
    }
    proof {
        assert forall|a: int, b: int| 0 <= a < b < mb * 16 implies #[trigger] block_at(v@, a)
            != #[trigger] block_at(v@, b) by {
            lemma_bench_blocks_differ(v@, mb as int, a, b);
        }
    }
    v
}

/// Two blocks of the benchmark's content begin with different draws.
proof fn lemma_bench_blocks_differ(v: Seq<u8>, mb: int, a: int, b: int)
    requires
        1 <= mb <= 1024,
        v.len() == mb * 1024 * 1024,
        forall|i: int| 0 <= i < v.len() ==> #[trigger] v[i] == bench_byte(i),
        0 <= a < b < mb * 16,
    ensures
        block_at(v, a) != block_at(v, b),
{
    if block_at(v, a) == block_at(v, b) {
        let p = nth_draw(BENCH_SEED, 8192 * a + 1);
        let q = nth_draw(BENCH_SEED, 8192 * b + 1);
        let x = crate::codec::le64(p);
        let y = crate::codec::le64(q);
        assert forall|j: int| 0 <= j < 8 implies x[j] == y[j] by {
            assert(block_at(v, a)[j] == v[a * BLOCK_SIZE + j]);
            assert(block_at(v, b)[j] == v[b * BLOCK_SIZE + j]);
            assert((a * 65536 + j) / 8 == 8192 * a && (a * 65536 + j) % 8 == j);
            assert((b * 65536 + j) / 8 == 8192 * b && (b * 65536 + j) % 8 == j);
        }
        assert(x =~= y);
        crate::codec::law_le64_round_trip(p);
        crate::codec::law_le64_round_trip(q);
        law_distant_draws_differ(1, a, b);
    }
}

/// Answers a `bench` request: the rates are given as text, and `read_back` is
/// how many bytes came back.
pub fn finish_bench(mb: usize, write: &str, read: &str, read_back: usize) -> (r: Response)
    requires
        mb <= 1024,
    ensures
        r@ == ResponseModel::listing(
            seq![
                "payload:        "@ + decimal_text(mb as nat) + " MiB ("@ + decimal_text(
                    (mb * 1024 * 1024) as nat,
                ) + " bytes, unique blocks)"@,
                "write:          "@ + write@,
                "read+verify:    "@ + read@,
                "integrity:      "@ + if read_back == mb * 1024 * 1024 {
                    "verified"@
                } else {
                    "MISMATCH"@
                },
            ],
        ),
{
    let total: u64 = mb as u64 * 1024 * 1024;
    let t = decimal(total);
    let mut v: Vec<String> = Vec::new();
    v.push(
        numbered("payload:        ", mb as u64).concat(" MiB (").concat(t.as_str()).concat(
            " bytes, unique blocks)",
        ),
    );
    v.push("write:          ".to_owned().concat(write));
    v.push("read+verify:    ".to_owned().concat(read));
    v.push(
        "integrity:      ".to_owned().concat(
            if read_back == mb * 1024 * 1024 {
                "verified"
            } else {
                "MISMATCH"
            },
        ),
    );
    assert(texts(v@) =~= seq![
        "payload:        "@ + decimal_text(mb as nat) + " MiB ("@ + decimal_text(
            (mb * 1024 * 1024) as nat,
        ) + " bytes, unique blocks)"@,
        "write:          "@ + write@,
        "read+verify:    "@ + read@,
        "integrity:      "@ + if read_back == mb * 1024 * 1024 {
            "verified"@
        } else {
            "MISMATCH"@
        },
    ]);
    Response::lines(v)
}

} // verus!
