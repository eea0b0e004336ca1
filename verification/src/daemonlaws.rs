//! What holds of the daemon, its settings and its client.

use vstd::prelude::*;
use vstd::utf8::encode_utf8;

use crate::args::{asks_for, flag_at, has_flag, value_behind, Mode};
use crate::classifier::{nth_draw, xorshift};
use crate::cli::{is_request, message_text, text_or, Command};
use crate::codec::{be64, from_le64, law_le64_round_trip, le32, le64};
use crate::config::{setting_changed, ConfigModel};
use crate::fs::{FsInfo, DEFAULT_CACHE_BYTES};
use crate::indexer::{entry_of, FoundFile};
use crate::inode::kind_text;
use crate::ipc::{
    ai_lines, bench_byte, bench_mebibytes, cache_lines, fs_write_handled, handled, hook_begun,
    hook_done, hook_lines, info_lines, listing_lines, or_fault, read_answered, result_cached,
    scrub_lines, snapshot_lines, stat_lines, without_verbatim, Context, Hook, HookDone, Outcome,
    MAX_IPC_BYTES,
};
use crate::logging::{level_named, LevelFilter};
use crate::pathcache::{
    after_evicting, alive, entry_size, evictions_for, is_soonest, lemma_sizes_insert,
    lemma_soonest_exists, paths_bytes, resident, PathCacheModel, PathEntry, DEFAULT_CAP_BYTES,
    DEFAULT_TTL,
};
use crate::period::BENCH_SEED;
use crate::protocol::{scored, Request, Response, ResponseModel, ScoredPath};
use crate::sorted::{
    ascending, entries_of, lemma_entries_unique, lemma_finite_map_has_entries, lemma_map_of_insert,
    lemma_place_for, map_of,
};
use crate::state::DaemonState;
use crate::store::{all_of, FileEntry};
use crate::text::{
    contains_text, decimal_text, fields, is_number, joined_by, padded, signed_text, texts,
};
use crate::textlaws::{law_contains, law_decimal, law_fields_of_joined, law_padded};
use crate::tree::{dir_entries, Fault, InodeModel};

verus! {

/// A size of an entry of the path cache: the bytes of the query and 64, and the
/// bytes of each path and 24.
pub proof fn law_entry_size(query: Seq<char>, a: Seq<(Seq<char>, u64)>, p: (Seq<char>, u64))
    ensures
        entry_size(query, a.push(p)) == entry_size(query, a) + encode_utf8(p.0).len() + 24,
        entry_size(query, Seq::empty()) == encode_utf8(query).len() + 64,
{
    assert(a.push(p).drop_last() =~= a);
    assert(paths_bytes(Seq::<(Seq<char>, u64)>::empty()) == 0);
}

/// A result that was cached is served until its time is up and not from then on.
pub proof fn law_cached_result_lives_for_its_time(
    before: PathCacheModel,
    after: PathCacheModel,
    query: Seq<char>,
    results: Seq<(Seq<char>, u64)>,
    clock: u64,
    t: u64,
)
    requires
        result_cached(before, after, query, results, clock),
        results.len() > 0,
        entry_size(query, results) <= before.cap,
        clock + before.ttl <= u64::MAX,
    ensures
        t < clock + before.ttl ==> after.result(query, t) == Some(results),
        t >= clock + before.ttl ==> after.result(query, t) is None,
        after.ttl == before.ttl,
        after.cap == before.cap,
        after.hits == before.hits,
        after.misses == before.misses,
        after.expired == before.expired,
{
}

/// While there is room, caching a result takes no other one away.
pub proof fn law_cached_results_stay(
    before: PathCacheModel,
    after: PathCacheModel,
    query: Seq<char>,
    results: Seq<(Seq<char>, u64)>,
    clock: u64,
    other: Seq<char>,
    t: u64,
)
    requires
        result_cached(before, after, query, results, clock),
        resident(before.map.remove(query)) + entry_size(query, results) <= before.cap,
        other != query,
    ensures
        after.result(other, t) == before.result(other, t),
        before.evictions == after.evictions,
{
    if results.len() > 0 && entry_size(query, results) <= before.cap {
        let (paths, n) = choose|paths: Vec<ScoredPath>, n: nat|
            {
                &&& scored(paths@) == results
                &&& evictions_for(
                    before.map.remove(query),
                    entry_size(query, results),
                    before.cap,
                    n,
                )
                &&& after == #[trigger] before.inserted(query, paths, clock, n)
            };
        let m = before.map.remove(query);
        assert(after_evicting(m, 0) == m);
        if n > 0 {
            assert(resident(after_evicting(m, 0)) + entry_size(query, results) > before.cap);
        }
    }
}

proof fn lemma_evicting_step(m: Map<Seq<char>, PathEntry>, n: nat, a: Seq<char>, b: Seq<char>)
    requires
        m.dom().finite(),
        n <= m.dom().len(),
        m.contains_key(a) && !after_evicting(m, n).contains_key(a),
        after_evicting(m, n).contains_key(b),
    ensures
        m.contains_key(b) && m[b] == after_evicting(m, n)[b],
        m[a].expires_at <= m[b].expires_at,
    decreases n,
{
    lemma_evicting(m, n);
    if n > 0 {
        let before = after_evicting(m, (n - 1) as nat);
        lemma_evicting(m, (n - 1) as nat);
        lemma_soonest_exists(before);
        let k = choose|k: Seq<char>| is_soonest(before, k);
        if before.contains_key(a) {
            assert(a == k);
            assert(before.contains_key(b));
        } else {
            lemma_evicting_step(m, (n - 1) as nat, a, b);
        }
    }
}

proof fn lemma_evicting(m: Map<Seq<char>, PathEntry>, n: nat)
    requires
        m.dom().finite(),
        n <= m.dom().len(),
    ensures
        after_evicting(m, n).dom().finite(),
        after_evicting(m, n).dom().len() == m.dom().len() - n,
        forall|k: Seq<char>| #[trigger]
            after_evicting(m, n).contains_key(k) ==> m.contains_key(k) && m[k] == after_evicting(
                m,
                n,
            )[k],
    decreases n,
{
    if n > 0 {
        lemma_evicting(m, (n - 1) as nat);
        let before = after_evicting(m, (n - 1) as nat);
        lemma_soonest_exists(before);
        let k = choose|k: Seq<char>| is_soonest(before, k);
        assert(before.remove(k).dom() =~= before.dom().remove(k));
    }
}

/// Where results have to make way, those go that expire first: none that stays
/// expires before one that goes, and what stays is as it was.
pub proof fn law_soonest_go_first(
    m: Map<Seq<char>, PathEntry>,
    n: nat,
    gone: Seq<char>,
    kept: Seq<char>,
)
    requires
        m.dom().finite(),
        n <= m.dom().len(),
        m.contains_key(gone) && !after_evicting(m, n).contains_key(gone),
        after_evicting(m, n).contains_key(kept),
    ensures
        m.contains_key(kept) && after_evicting(m, n)[kept] == m[kept],
        m[gone].expires_at <= m[kept].expires_at,
        after_evicting(m, n).dom().len() == m.dom().len() - n,
{
    lemma_evicting(m, n);
    lemma_evicting_step(m, n, gone, kept);
}

/// A look-up changes nothing for other queries, and counts itself: a hit where
/// there was a result, else a miss.
pub proof fn law_lookup_is_counted(
    m: PathCacheModel,
    query: Seq<char>,
    now: u64,
    other: Seq<char>,
    t: u64,
)
    requires
        m.hits < u64::MAX,
        m.misses < u64::MAX,
        m.expired < u64::MAX,
    ensures
        ({
            let after = m.looked_up(query, now);
            &&& other != query ==> after.result(other, t) == m.result(other, t)
            &&& m.result(query, now) is Some ==> after.hits == m.hits + 1 && after.misses == m.misses
                && after.expired == m.expired
            &&& m.result(query, now) is None ==> after.misses == m.misses + 1 && after.hits == m.hits
            &&& m.result(query, now) is None && m.map.contains_key(query) ==> after.expired
                == m.expired + 1
            &&& after.evictions == m.evictions
            &&& after.ttl == m.ttl && after.cap == m.cap
        }),
{
}

/// A sweep takes away what has expired and nothing else: from then on every
/// look-up gives what it would have given.
pub proof fn law_sweep(m: PathCacheModel, now: u64, query: Seq<char>, t: u64)
    requires
        now <= t,
    ensures
        (PathCacheModel { map: alive(m.map, now), ..m }).result(query, t) == m.result(query, t),
        alive(m.map, now).contains_key(query) <==> m.map.contains_key(query)
            && m.map[query].expires_at > now,
{
}

/// Results are kept for five minutes, in at most 500 MiB.
pub proof fn law_path_cache_limits()
    ensures
        DEFAULT_TTL == 300 * 1_000_000_000,
        DEFAULT_CAP_BYTES == 500 * 1024 * 1024,
{
}

/// The keys of the settings are different.
proof fn lemma_keys()
    ensures
        "lambda"@ != "retrain_threshold"@,
        "lambda"@ != "max_results"@,
        "lambda"@ != "log_level"@,
        "lambda"@ != "root_dirs"@,
        "retrain_threshold"@ != "max_results"@,
        "retrain_threshold"@ != "log_level"@,
        "retrain_threshold"@ != "root_dirs"@,
        "max_results"@ != "log_level"@,
        "max_results"@ != "root_dirs"@,
        "log_level"@ != "root_dirs"@,
{
    reveal_strlit("lambda");
    reveal_strlit("retrain_threshold");
    reveal_strlit("max_results");
    reveal_strlit("log_level");
    reveal_strlit("root_dirs");
    assert("lambda"@.len() == 6);
    assert("retrain_threshold"@.len() == 17);
    assert("max_results"@.len() == 11);
    assert("log_level"@.len() == 9);
    assert("root_dirs"@.len() == 9);
    assert("log_level"@[0] == 'l');
    assert("root_dirs"@[0] == 'r');
}

/// A setting that was changed has the new value, and no other setting changes;
/// where a change is refused, none does.
pub proof fn law_settings(
    before: ConfigModel,
    after: ConfigModel,
    key: Seq<char>,
    value: Seq<char>,
    lambda: Result<u64, Seq<char>>,
    r: Result<(), Seq<char>>,
)
    requires
        setting_changed(before, after, key, value, lambda, r),
    ensures
        r is Err ==> after == before,
        key != "lambda"@ ==> after.lambda == before.lambda,
        key != "retrain_threshold"@ ==> after.retrain_threshold == before.retrain_threshold,
        key != "max_results"@ ==> after.max_results == before.max_results,
        key != "log_level"@ ==> after.log_level == before.log_level,
        key != "root_dirs"@ ==> after.root_dirs == before.root_dirs,
        key == "lambda"@ ==> (r is Ok <==> lambda is Ok) && (r is Ok ==> after.lambda
            == lambda->Ok_0),
        key == "retrain_threshold"@ && r is Ok ==> is_number(value, after.retrain_threshold as int),
        key == "max_results"@ && r is Ok ==> is_number(value, after.max_results as int),
        key == "log_level"@ ==> r is Ok && after.log_level == value,
        key == "root_dirs"@ ==> r is Ok && joined_by(after.root_dirs, ';') == value,
        key != "lambda"@ && key != "retrain_threshold"@ && key != "max_results"@ && key
            != "log_level"@ && key != "root_dirs"@ ==> r is Err,
{
    lemma_keys();
    crate::text::law_joined_fields(value, ';');
}

/// A number that is set is taken where it fits, and reads back as it is written
/// without zeros before it.
pub proof fn law_number_settings(
    before: ConfigModel,
    after: ConfigModel,
    key: Seq<char>,
    n: usize,
    lambda: Result<u64, Seq<char>>,
    r: Result<(), Seq<char>>,
    lambda_text: Seq<char>,
)
    requires
        key == "retrain_threshold"@ || key == "max_results"@,
        setting_changed(before, after, key, decimal_text(n as nat), lambda, r),
    ensures
        r is Ok,
        after.value_of(key, lambda_text) == Some(decimal_text(n as nat)),
{
    lemma_keys();
    law_decimal(n as nat);
    assert(is_number(decimal_text(n as nat), n as int));
}

/// Every setting can be read, by its name alone.
pub proof fn law_settings_are_read(c: ConfigModel, key: Seq<char>, lambda_text: Seq<char>)
    ensures
        c.value_of("lambda"@, lambda_text) == Some(lambda_text),
        c.value_of("log_level"@, lambda_text) == Some(c.log_level),
        c.value_of("retrain_threshold"@, lambda_text) == Some(
            decimal_text(c.retrain_threshold as nat),
        ),
        c.value_of("max_results"@, lambda_text) == Some(decimal_text(c.max_results as nat)),
        c.value_of("root_dirs"@, lambda_text) == Some(joined_by(c.root_dirs, ';')),
        key != "lambda"@ && key != "retrain_threshold"@ && key != "max_results"@ && key
            != "log_level"@ && key != "root_dirs"@ ==> c.value_of(key, lambda_text) is None,
{
    lemma_keys();
}

/// A new installation indexes the home directory, shows ten results, and trains
/// anew after five hundred events.
pub proof fn law_initial_settings(home: Seq<char>)
    ensures
        ConfigModel::initial(Some(home)).root_dirs == seq![home],
        ConfigModel::initial(None).root_dirs == seq!["C:/"@],
        ConfigModel::initial(Some(home)).max_results == 10,
        ConfigModel::initial(Some(home)).retrain_threshold == 500,
        ConfigModel::initial(Some(home)).log_level == "info"@,
        ConfigModel::initial(Some(home)).lambda == 0x3fb9_9999_9999_999a,
{
}

/// Requests change only what they are for: no request touches the index or the
/// model, only a change of the settings the settings, only the four that change
/// the volume the volume, and only a search the cache of results.
pub proof fn law_requests_change_only_their_part(
    before: DaemonState,
    after: DaemonState,
    req: Request,
    ctx: Context,
    r: Outcome,
)
    requires
        handled(before, after, req, ctx, r),
    ensures
        after.store == before.store,
        after.classifier == before.classifier,
        after.last_retrain == before.last_retrain,
        after.saved_version == before.saved_version,
        !(req is ConfigSet) ==> after.config == before.config,
        !(req is Find) ==> after.path_cache == before.path_cache,
        !(req is FsMkdir || req is FsRm || req is FsSnapshot || req is FsRollback) ==> after.vfs@
            == before.vfs@,
{
}

/// A response that failed says why, one that is done says so, and neither says
/// anything else.
pub proof fn law_responses(msg: Seq<char>, lines: Seq<Seq<char>>, results: Seq<(Seq<char>, u64)>)
    ensures
        ResponseModel::failed(msg).error == Some(msg),
        ResponseModel::failed(msg).ok is None,
        ResponseModel::failed(msg).results is None,
        ResponseModel::done(msg).ok == Some(true),
        ResponseModel::done(msg).message == Some(msg),
        ResponseModel::done(msg).error is None,
        ResponseModel::listing(lines).lines == Some(lines),
        ResponseModel::listing(lines).error is None,
        ResponseModel::found(results).results == Some(results),
        ResponseModel::found(results).error is None,
        ResponseModel::empty().error is None,
        ResponseModel::empty().results is None,
        ResponseModel::empty().lines is None,
        ResponseModel::empty().opened_path is None,
        ResponseModel::empty().data_b64 is None,
{
}

/// An operation on the volume is answered with success exactly if it succeeded.
pub proof fn law_outcomes_are_told(r: Result<(), Fault>, done: Seq<char>)
    ensures
        r is Ok ==> or_fault(r, done).ok == Some(true) && or_fault(r, done).error is None
            && or_fault(r, done).message == Some(done),
        r is Err ==> or_fault(r, done).error is Some && or_fault(r, done).ok is None,
{
}

/// What the requests on the daemon itself are answered.
pub proof fn law_requests_are_answered(
    before: DaemonState,
    after: DaemonState,
    req: Request,
    ctx: Context,
    r: Outcome,
)
    requires
        handled(before, after, req, ctx, r),
    ensures
        req matches Request::Open { query } ==> (r matches Outcome::Search { query: q, opening }
            && q@ == query@ && opening),
        req matches Request::Find { query } ==> match before.path_cache@.result(query@, ctx.clock) {
            Some(v) => r matches Outcome::Reply(resp) && resp@.results == Some(v)
                && resp@.error is None,
            None => r matches Outcome::Search { query: q, opening } && q@ == query@ && !opening,
        },
        req is Status ==> (r matches Outcome::Reply(resp) && resp@.status == Some("running"@)
            && resp@.indexed_files == Some(all_of(before.store@).len() as usize)),
        req is Reindex ==> (r matches Outcome::Reindex(roots) && texts(roots@)
            == before.config@.root_dirs),
        req matches Request::ConfigGet { key } ==> (r matches Outcome::Reply(resp)
            && match before.config@.value_of(key@, ctx.lambda_text@) {
            Some(v) => resp@.message == Some(v) && resp@.error is None,
            None => resp@.error is Some,
        }),
        req matches Request::Hook { dir } ==> (r matches Outcome::Hook { dir: d } && d@ == dir@),
        req matches Request::Bench { mb } ==> (r matches Outcome::Bench { mb: n } && 1 <= n <= 1024
            && (1 <= mb <= 1024 ==> n == mb)),
        req matches Request::FsMkdir { path } ==> (r matches Outcome::Reply(resp)
            && (resp@.error is None <==> before.vfs@.made_dir(path@, ctx.now).1 is Ok)
            && after.vfs@ == before.vfs@.made_dir(path@, ctx.now).0),
        req matches Request::FsRm { path } ==> (r matches Outcome::Reply(resp) && (resp@.error is None
            <==> before.vfs@.removed(path@, ctx.now).1 is Ok) && after.vfs@ == before.vfs@.removed(
            path@,
            ctx.now,
        ).0),
        req matches Request::FsSnapshot { name } ==> after.vfs@.snapshots.contains_key(name@)
            && after.vfs@.snapshots[name@] == before.vfs@.state && after.vfs@.inodes
            == before.vfs@.inodes && after.vfs@.state == before.vfs@.state,
        req matches Request::FsRollback { name } ==> (r matches Outcome::Reply(resp)
            && (resp@.error is None <==> before.vfs@.snapshots.contains_key(name@))),
        req matches Request::FsLs { path } ==> (r matches Outcome::Reply(resp)
            && (resp@.lines is Some <==> before.vfs@.listing(path@) is Ok)),
        req matches Request::FsStat { path } ==> (r matches Outcome::Reply(resp)
            && (resp@.lines is Some <==> before.vfs@.inode_at(path@) is Ok)),
{
}

/// What the requests for listings are answered: the entries of a directory, the
/// metadata of a path, the snapshots, the hooked directories, the state of the
/// model and of the caches.
pub proof fn law_listings_are_answered(
    before: DaemonState,
    after: DaemonState,
    req: Request,
    ctx: Context,
    r: Outcome,
)
    requires
        handled(before, after, req, ctx, r),
    ensures
        req matches Request::FsLs { path } ==> (before.vfs@.listing(path@) matches Ok(l) ==> (
        r matches Outcome::Reply(resp) && resp@.lines == Some(listing_lines(l)))),
        req matches Request::FsStat { path } ==> (before.vfs@.inode_at(path@) matches Ok(i) ==> (
        r matches Outcome::Reply(resp) && resp@.lines == Some(stat_lines(i)))),
        req is FsSnapshots ==> (r matches Outcome::Reply(resp) && resp@.lines == Some(
            snapshot_lines(before.vfs@.snapshot_list()),
        )),
        req is HookStatus ==> (r matches Outcome::Reply(resp) && resp@.lines == Some(
            hook_lines(all_of(before.store@).len(), before.config@.root_dirs),
        )),
        req is Ai ==> (r matches Outcome::Reply(resp) && resp@.lines == Some(ai_lines(before))),
        req is Cache ==> (r matches Outcome::Reply(resp) && resp@.lines == Some(
            cache_lines(before, ctx.hit_rate@),
        )),
{
}

/// Scored paths are the paths with their scores, in their order.
pub proof fn law_scored(v: Seq<ScoredPath>, i: int)
    requires
        0 <= i < v.len(),
    ensures
        scored(v).len() == v.len(),
        scored(v)[i] == (v[i].path@, v[i].score),
{
}

/// An entry that is added to the path cache takes up its size beside what was
/// there; an empty cache takes up nothing.
pub proof fn law_resident(m: Map<Seq<char>, PathEntry>, k: Seq<char>, e: PathEntry)
    requires
        m.dom().finite(),
        !m.contains_key(k),
    ensures
        resident(m.insert(k, e)) == resident(m) + e.bytes,
        resident(Map::<Seq<char>, PathEntry>::empty()) == 0,
{
    lemma_finite_map_has_entries::<String, PathEntry>(m);
    let before = entries_of::<String, PathEntry>(m);
    let p = lemma_place_for::<String, PathEntry>(before, k);
    lemma_map_of_insert::<String, PathEntry>(before, p, k, e);
    let grown = before.insert(p, (k, e));
    let after = entries_of::<String, PathEntry>(m.insert(k, e));
    assert(ascending::<String, PathEntry>(after) && map_of(after) == m.insert(k, e));
    lemma_entries_unique::<String, PathEntry>(grown, after);
    lemma_sizes_insert(before, p, (k, e));
    let none = Map::<Seq<char>, PathEntry>::empty();
    let empty = Seq::<(Seq<char>, PathEntry)>::empty();
    assert(map_of(empty) =~= none);
    assert(ascending::<String, PathEntry>(empty));
    lemma_entries_unique::<String, PathEntry>(empty, entries_of::<String, PathEntry>(none));
}

/// A result is cached within the budget, and no more results make way for it
/// than have to.
pub proof fn law_cache_stays_within_the_budget(
    before: PathCacheModel,
    after: PathCacheModel,
    query: Seq<char>,
    results: Seq<(Seq<char>, u64)>,
    clock: u64,
) -> (n: nat)
    requires
        before.map.dom().finite(),
        result_cached(before, after, query, results, clock),
        results.len() > 0,
        entry_size(query, results) <= before.cap,
        before.cap <= usize::MAX,
    ensures
        resident(after.map) <= before.cap,
        n > 0 ==> resident(after_evicting(before.map.remove(query), (n - 1) as nat)) + entry_size(
            query,
            results,
        ) > before.cap,
        before.evictions + n <= u64::MAX ==> after.evictions == before.evictions + n,
{
    let (paths, n) = choose|paths: Vec<ScoredPath>, n: nat|
        {
            &&& scored(paths@) == results
            &&& evictions_for(
                before.map.remove(query),
                entry_size(query, results),
                before.cap,
                n,
            )
            &&& after == #[trigger] before.inserted(query, paths, clock, n)
        };
    let m = before.map.remove(query);
    assert(m.dom() =~= before.map.dom().remove(query));
    lemma_evictions_finite(m, n, query);
    let left = after_evicting(m, n);
    law_resident(left, query, after.map[query]);
    assert(after.map =~= left.insert(query, after.map[query]));
    n
}

proof fn lemma_evictions_finite(m: Map<Seq<char>, PathEntry>, n: nat, query: Seq<char>)
    requires
        m.dom().finite(),
        !m.contains_key(query),
    ensures
        after_evicting(m, n).dom().finite(),
        !after_evicting(m, n).contains_key(query),
    decreases n,
{
    if n > 0 {
        lemma_evictions_finite(m, (n - 1) as nat, query);
        let before = after_evicting(m, (n - 1) as nat);
        let k = choose|k: Seq<char>| is_soonest(before, k);
        assert(before.remove(k).dom() =~= before.dom().remove(k));
    }
}

/// The content of a benchmark is the stream of the generator: each word of eight
/// bytes follows from the one before by one step.
pub proof fn law_bench_stream(k: int)
    requires
        0 <= k,
    ensures
        ({
            let word = |i: int| from_le64(Seq::new(8, |j: int| bench_byte(8 * i + j)));
            &&& word(0) == xorshift(BENCH_SEED)
            &&& word(k + 1) == xorshift(word(k) as u64)
        }),
{
    lemma_bench_word(0);
    lemma_bench_word(k);
    lemma_bench_word(k + 1);
    assert(nth_draw(BENCH_SEED, 1) == xorshift(nth_draw(BENCH_SEED, 0)));
}

proof fn lemma_bench_word(i: int)
    requires
        0 <= i,
    ensures
        from_le64(Seq::new(8, |j: int| bench_byte(8 * i + j))) == nth_draw(BENCH_SEED, i + 1),
{
    let x = nth_draw(BENCH_SEED, i + 1);
    let s = Seq::new(8, |j: int| bench_byte(8 * i + j));
    law_le64_round_trip(x);
    assert forall|j: int| 0 <= j < 8 implies s[j] == le64(x)[j] by {
        assert((8 * i + j) / 8 == i && (8 * i + j) % 8 == j);
    }
    assert(s =~= le64(x));
}

/// Numbers are stored with their lowest byte first.
pub proof fn law_little_endian(x: u64, y: u32)
    ensures
        le64(x).len() == 8,
        le64(x)[0] == x % 256,
        le64(x)[1] == x / 256 % 256,
        le64(x)[7] == x / 72057594037927936,
        le32(y).len() == 4,
        le32(y)[0] == y % 256,
        le32(y)[3] == y / 16777216,
        be64(x)[7] == x % 256,
        be64(x)[0] == x / 72057594037927936,
{
}

/// A change of the settings is saved where it was made, and where it was refused
/// the settings are as they were.
pub proof fn law_settings_are_saved(
    before: DaemonState,
    after: DaemonState,
    req: Request,
    ctx: Context,
    r: Outcome,
)
    requires
        handled(before, after, req, ctx, r),
        req is ConfigSet,
    ensures
        match r {
            Outcome::SaveConfig(resp) => resp@.ok == Some(true) && resp@.error is None,
            Outcome::Reply(resp) => resp@.error is Some && resp@.ok is None && after.config@
                == before.config@,
            _ => false,
        },
        req->ConfigSet_key@ == "log_level"@ ==> r is SaveConfig && after.config@.log_level
            == req->value@,
        req->ConfigSet_key@ == "lambda"@ && ctx.lambda is Ok ==> r is SaveConfig
            && after.config@.lambda == ctx.lambda->Ok_0,
{
    lemma_keys();
    crate::text::law_joined_fields(req->value@, ';');
}

/// A request for a file is carried out where the path leads to one, for its
/// blocks and its content; sizes are told and garbage is collected where the
/// walk succeeds.
pub proof fn law_volume_requests(
    before: DaemonState,
    after: DaemonState,
    req: Request,
    ctx: Context,
    r: Outcome,
    k: Seq<u8>,
)
    requires
        handled(before, after, req, ctx, r),
    ensures
        req matches Request::FsRead { path } ==> match before.vfs@.inode_at(path@) {
            Ok(InodeModel::File { blocks, data, .. }) => r matches Outcome::ReadFile(job)
                && job@.wanted == blocks && job@.parts.len() == 0 && (blocks.len() == 0
                ==> job@.inline == data) && (blocks.len() > 0 ==> job@.inline.len() == 0),
            _ => r matches Outcome::Reply(resp) && resp@.error is Some,
        },
        req is FsInfo ==> match crate::tree::visited(before.vfs@.inodes, before.vfs@.state.root) {
            Ok(seen) => r matches Outcome::Info(i) && before.vfs@.info_of(i, seen),
            Err(_) => r matches Outcome::Reply(resp) && resp@.error is Some,
        },
        req is FsGc ==> match before.vfs@.pinned() {
            Ok(seen) => r matches Outcome::Gc(live) && (live@.contains_key(k)
                <==> crate::fs::refers_to(seen, k)),
            Err(_) => r matches Outcome::Reply(resp) && resp@.error is Some,
        },
        req is FsScrub ==> (r matches Outcome::Scrub(s) && s@.checked == 0 && s@.bad.len() == 0
            && s@.todo == before.vfs@.blocks.entries()),
{
}

/// A payload of up to 16 MiB is written as it is, a larger one is refused, and
/// so is a text that is no payload.
pub proof fn law_payload_limit(path: Seq<char>, text: Seq<char>, r: Outcome)
    requires
        fs_write_handled(path, text, r),
    ensures
        MAX_IPC_BYTES == 16_777_216,
        match crate::ipc::base64_bytes(text) {
            Ok(b) => if b.len() <= 16_777_216 {
                r matches Outcome::WriteFile { path: p, data } && p@ == path && data@ == b
            } else {
                r matches Outcome::Reply(resp) && resp@.error is Some && resp@.ok is None
            },
            Err(_) => r matches Outcome::Reply(resp) && resp@.error is Some && resp@.ok is None,
        },
{
}

/// The content of a file of up to 16 MiB is sent as a text that stands for it,
/// and that of a larger one is not.
pub proof fn law_download_limit(bytes: Seq<u8>, r: ResponseModel)
    requires
        read_answered(bytes, r),
    ensures
        bytes.len() <= 16_777_216 ==> r.error is None && r.data_b64 is Some
            && crate::ipc::base64_bytes(r.data_b64.unwrap()) == Ok::<Seq<u8>, Seq<char>>(bytes),
        bytes.len() > 16_777_216 ==> r.error is Some && r.data_b64 is None,
{
}

/// A benchmark moves as many MiB as were asked for, within one and 1024.
pub proof fn law_bench_size(mb: usize)
    ensures
        1 <= bench_mebibytes(mb) <= 1024,
        1 <= mb <= 1024 ==> bench_mebibytes(mb) == mb,
        mb > 1024 ==> bench_mebibytes(mb) == 1024,
        mb == 0 ==> bench_mebibytes(mb) == 1,
{
}

/// Only the prefix of extended-length paths is taken off.
pub proof fn law_verbatim_prefix(rest: Seq<char>, path: Seq<char>)
    ensures
        without_verbatim(seq!['\\', '\\', '?', '\\'] + rest) == rest,
        path.len() < 4 || path[0] != '\\' || path[1] != '\\' || path[2] != '?' || path[3] != '\\'
            ==> without_verbatim(path) == path,
{
    let p = seq!['\\', '\\', '?', '\\'] + rest;
    assert(p.take(4) =~= seq!['\\', '\\', '?', '\\']);
    assert(p.skip(4) =~= rest);
    if path.len() >= 4 && path.take(4) == seq!['\\', '\\', '?', '\\'] {
        let t = path.take(4);
        assert(t[0] == path[0] && t[1] == path[1] && t[2] == path[2] && t[3] == path[3]);
    }
}

/// A line ends with a text.
pub open spec fn ends_with(line: Seq<char>, tail: Seq<char>) -> bool {
    line.len() >= tail.len() && line.skip(line.len() - tail.len()) == tail
}

/// A line begins with a text.
pub open spec fn begins_with(line: Seq<char>, head: Seq<char>) -> bool {
    line.len() >= head.len() && line.take(head.len() as int) == head
}

proof fn lemma_ends(a: Seq<char>, b: Seq<char>)
    ensures
        ends_with(a + b, b),
        begins_with(a + b, a),
{
    assert((a + b).skip((a + b).len() - b.len()) =~= b);
    assert((a + b).take(a.len() as int) =~= a);
}

/// A listing has a line for each entry, with its kind in front and its name at
/// the end, and says so where there is none.
pub proof fn law_listing_lines(l: Seq<(Seq<char>, Seq<char>)>, i: int)
    requires
        0 <= i < l.len(),
    ensures
        listing_lines(l).len() == l.len(),
        begins_with(listing_lines(l)[i], l[i].1),
        ends_with(listing_lines(l)[i], l[i].0),
        listing_lines(Seq::empty()) == seq!["(empty)"@],
{
    let k = padded(l[i].1, 4);
    law_padded(l[i].1, 4);
    lemma_ends(k + "  "@, l[i].0);
    let rest = k.skip(l[i].1.len() as int) + "  "@ + l[i].0;
    assert(l[i].1 + rest =~= listing_lines(l)[i]) by {
        assert(l[i].1 + k.skip(l[i].1.len() as int) =~= k);
    }
    lemma_ends(l[i].1, rest);
}

/// The metadata of a file are its size, its blocks and when it was changed; of
/// a directory, its entries and when it was changed.
pub proof fn law_stat_lines(m: InodeModel)
    ensures
        stat_lines(m).len() == 5,
        ends_with(stat_lines(m)[0], kind_text(m)),
        m matches InodeModel::File { size, blocks, mtime, .. } ==> stat_lines(m)[1] == "size:    "@
            + decimal_text(size as nat) + " bytes"@ && ends_with(
            stat_lines(m)[2],
            decimal_text(blocks.len()),
        ) && ends_with(stat_lines(m)[3], "0"@) && ends_with(
            stat_lines(m)[4],
            signed_text(mtime as int),
        ),
        m matches InodeModel::Dir { entries, mtime } ==> ends_with(
            stat_lines(m)[3],
            decimal_text(dir_entries(entries).len()),
        ) && ends_with(stat_lines(m)[4], signed_text(mtime as int)),
{
    lemma_ends("kind:    "@, kind_text(m));
    law_decimal(0);
    reveal_strlit("0");
    assert("0"@ =~= seq!['0']);
    match m {
        InodeModel::File { size, blocks, mtime, .. } => {
            lemma_ends("blocks:  "@, decimal_text(blocks.len()));
            lemma_ends("entries: "@, decimal_text(0));
            lemma_ends("mtime:   "@, signed_text(mtime as int));
        },
        InodeModel::Dir { entries, mtime } => {
            lemma_ends("entries: "@, decimal_text(dir_entries(entries).len()));
            lemma_ends("mtime:   "@, signed_text(mtime as int));
        },
    }
}

/// The sizes of a volume are told one by one, each behind what it is.
pub proof fn law_info_lines(i: FsInfo, ratio: Seq<char>)
    ensures
        info_lines(i, ratio).len() == 9,
        ends_with(info_lines(i, ratio)[0], decimal_text(i.txg as nat)),
        ends_with(info_lines(i, ratio)[1], decimal_text(i.files as nat)),
        ends_with(info_lines(i, ratio)[2], decimal_text(i.dirs as nat)),
        ends_with(info_lines(i, ratio)[3], decimal_text(i.unique_blocks as nat)),
        ends_with(info_lines(i, ratio)[4], decimal_text(i.logical_bytes as nat)),
        ends_with(info_lines(i, ratio)[5], decimal_text(i.physical_referenced as nat)),
        ends_with(info_lines(i, ratio)[6], decimal_text(i.physical_total as nat)),
        ends_with(info_lines(i, ratio)[7], decimal_text(i.reclaimable_bytes as nat)),
        ends_with(info_lines(i, ratio)[8], ratio + "x"@),
        begins_with(info_lines(i, ratio)[1], "files:"@),
        begins_with(info_lines(i, ratio)[7], "reclaimable bytes:"@),
{
    lemma_ends("transaction (txg):   "@, decimal_text(i.txg as nat));
    lemma_ends("files:               "@, decimal_text(i.files as nat));
    lemma_ends("directories:         "@, decimal_text(i.dirs as nat));
    lemma_ends("unique blocks:       "@, decimal_text(i.unique_blocks as nat));
    lemma_ends("logical bytes:       "@, decimal_text(i.logical_bytes as nat));
    lemma_ends("physical (live):     "@, decimal_text(i.physical_referenced as nat));
    lemma_ends("physical (total):    "@, decimal_text(i.physical_total as nat));
    lemma_ends("reclaimable bytes:   "@, decimal_text(i.reclaimable_bytes as nat));
    lemma_ends("dedup ratio:         "@, ratio + "x"@);
    assert(info_lines(i, ratio)[8] =~= "dedup ratio:         "@ + (ratio + "x"@));
    reveal_strlit("files:");
    reveal_strlit("files:               ");
    reveal_strlit("reclaimable bytes:");
    reveal_strlit("reclaimable bytes:   ");
    assert(info_lines(i, ratio)[1].take(6) =~= "files:"@);
    assert(info_lines(i, ratio)[7].take(18) =~= "reclaimable bytes:"@);
}

/// Every snapshot is told with its name and its transaction, and where there is
/// none, that is.
pub proof fn law_snapshot_lines(l: Seq<(Seq<char>, u64)>, i: int)
    requires
        0 <= i < l.len(),
    ensures
        snapshot_lines(l).len() == l.len(),
        begins_with(snapshot_lines(l)[i], l[i].0),
        ends_with(snapshot_lines(l)[i], decimal_text(l[i].1 as nat) + ")"@),
        snapshot_lines(Seq::empty()) == seq!["(no snapshots)"@],
{
    let d = decimal_text(l[i].1 as nat);
    lemma_ends(l[i].0 + "  (txg "@, d + ")"@);
    lemma_ends(l[i].0, "  (txg "@ + d + ")"@);
    assert(snapshot_lines(l)[i] =~= l[i].0 + "  (txg "@ + (d + ")"@));
    assert(snapshot_lines(l)[i] =~= l[i].0 + ("  (txg "@ + d + ")"@));
}

/// A scrub tells how many blocks were checked and every corrupt one.
pub proof fn law_scrub_lines(checked: nat, bad: Seq<Seq<char>>, i: int)
    ensures
        scrub_lines(checked, bad)[0] == "scrubbed "@ + decimal_text(checked) + " blocks"@,
        bad.len() == 0 ==> scrub_lines(checked, bad).len() == 2,
        bad.len() > 0 ==> scrub_lines(checked, bad).len() == bad.len() + 2 && begins_with(
            scrub_lines(checked, bad)[1],
            decimal_text(bad.len()),
        ),
        0 <= i < bad.len() ==> scrub_lines(checked, bad)[i + 2] == bad[i],
{
    lemma_ends(decimal_text(bad.len()), " CORRUPT block(s):"@);
}

/// Every hooked directory is told, and how many files are indexed.
pub proof fn law_hook_lines(files: nat, dirs: Seq<Seq<char>>, i: int)
    ensures
        hook_lines(files, dirs).len() == dirs.len() + 2,
        ends_with(hook_lines(files, dirs)[0], decimal_text(files)),
        0 <= i < dirs.len() ==> ends_with(hook_lines(files, dirs)[i + 2], dirs[i]),
{
    lemma_ends("indexed files: "@, decimal_text(files));
    if 0 <= i < dirs.len() {
        lemma_ends("  "@, dirs[i]);
    }
}

/// The state of the model is told with its version, its updates, its classes
/// and its vocabulary.
pub proof fn law_ai_lines(s: DaemonState)
    ensures
        ai_lines(s).len() == 7,
        ends_with(ai_lines(s)[0], crate::text::bool_text(s.classifier@.classes.len() > 0)),
        ends_with(ai_lines(s)[1], decimal_text(s.classifier@.version as nat)),
        ends_with(ai_lines(s)[2], decimal_text(s.classifier@.updates as nat)),
        ends_with(ai_lines(s)[3], decimal_text(s.saved_version as nat)),
        ends_with(ai_lines(s)[4], decimal_text(s.classifier@.classes.len())),
        ends_with(ai_lines(s)[5], decimal_text(s.classifier@.terms.len())),
{
    let c = s.classifier@;
    lemma_ends("trained:        "@, crate::text::bool_text(c.classes.len() > 0));
    lemma_ends("model version:  "@, decimal_text(c.version as nat));
    lemma_ends("online updates: "@, decimal_text(c.updates as nat));
    lemma_ends("saved version:  "@, decimal_text(s.saved_version as nat));
    lemma_ends("classes (dirs): "@, decimal_text(c.classes.len()));
    lemma_ends("vocabulary:     "@, decimal_text(c.terms.len()));
}

/// The counts of both caches are told, those of the blocks before those of the
/// results.
#[verifier::spinoff_prover]
#[verifier::rlimit(40)]
pub proof fn law_cache_lines(s: DaemonState, rate: Seq<char>)
    ensures
        ({
            let l = cache_lines(s, rate);
            let b = s.vfs@.blocks.cache;
            let p = s.path_cache@;
            &&& l.len() == 16
            &&& ends_with(l[1], decimal_text(b.cap) + " bytes"@)
            &&& ends_with(l[2], decimal_text(b.resident()) + " bytes"@)
            &&& ends_with(l[3], decimal_text(b.hits as nat))
            &&& ends_with(l[4], decimal_text(b.misses as nat))
            &&& ends_with(l[5], rate)
            &&& ends_with(l[6], decimal_text(b.promotions as nat))
            &&& ends_with(l[7], decimal_text(b.evictions as nat))
            &&& ends_with(l[10], decimal_text(p.cap) + " bytes"@)
            &&& ends_with(l[11], decimal_text(resident(p.map)) + " bytes"@)
            &&& ends_with(l[12], decimal_text(p.hits as nat))
            &&& ends_with(l[13], decimal_text(p.misses as nat))
            &&& ends_with(l[14], decimal_text(p.expired as nat))
            &&& ends_with(l[15], decimal_text(p.evictions as nat))
        }),
{
    let l = cache_lines(s, rate);
    let b = s.vfs@.blocks.cache;
    let p = s.path_cache@;
    assert(l.len() == 16);
    lemma_line(l[1], "  capacity:   "@, decimal_text(b.cap), " bytes"@);
    lemma_line(l[2], "  resident:   "@, decimal_text(b.resident()), " bytes"@);
    lemma_ends("  hits:       "@, decimal_text(b.hits as nat));
    lemma_ends("  misses:     "@, decimal_text(b.misses as nat));
    lemma_ends("  hit rate:   "@, rate);
    lemma_ends("  promotions: "@, decimal_text(b.promotions as nat));
    lemma_ends("  evictions:  "@, decimal_text(b.evictions as nat));
    lemma_line(l[10], "  capacity:   "@, decimal_text(p.cap), " bytes"@);
    lemma_line(l[11], "  resident:   "@, decimal_text(resident(p.map)), " bytes"@);
    lemma_ends("  hits:       "@, decimal_text(p.hits as nat));
    lemma_ends("  misses:     "@, decimal_text(p.misses as nat));
    lemma_ends("  expired:    "@, decimal_text(p.expired as nat));
    lemma_ends("  evictions:  "@, decimal_text(p.evictions as nat));
}

proof fn lemma_line(line: Seq<char>, label: Seq<char>, value: Seq<char>, unit: Seq<char>)
    requires
        line == label + value + unit,
    ensures
        ends_with(line, value + unit),
{
    lemma_ends(label, value + unit);
    assert(label + value + unit =~= label + (value + unit));
}

/// The lifetime of the results is told in seconds.
pub proof fn law_lifetime_line(s: DaemonState, rate: Seq<char>, secs: nat)
    requires
        s.path_cache@.ttl == secs * 1_000_000_000,
    ensures
        ends_with(cache_lines(s, rate)[9], decimal_text(secs) + " s"@),
{
    let l = cache_lines(s, rate);
    assert(s.path_cache@.ttl / 1_000_000_000 == secs);
    lemma_line(l[9], "  ttl:        "@, decimal_text(secs), " s"@);
}

/// The words of a query reach the daemon as they were typed, if none holds a
/// space, and what a command names reaches it unchanged.
pub proof fn law_commands_become_requests(cmd: Command, req: Request)
    requires
        is_request(cmd, req),
    ensures
        cmd matches Command::Find { query } ==> (req matches Request::Find { query: q} && (query@.len()
            > 0 && (forall|i: int|
            0 <= i < query@.len() ==> !(#[trigger] texts(query@)[i]).contains(' ')) ==> fields(
            q@,
            ' ',
        ) == texts(query@))),
        cmd matches Command::Open { query } ==> (req matches Request::Open { query: q} && (query@.len()
            > 0 && (forall|i: int|
            0 <= i < query@.len() ==> !(#[trigger] texts(query@)[i]).contains(' ')) ==> fields(
            q@,
            ' ',
        ) == texts(query@))),
        cmd matches Command::FsRead { vpath } ==> (req matches Request::FsRead { path } && path@
            == vpath@),
        cmd matches Command::FsRm { vpath } ==> (req matches Request::FsRm { path } && path@
            == vpath@),
        cmd matches Command::FsMkdir { vpath } ==> (req matches Request::FsMkdir { path } && path@
            == vpath@),
        cmd matches Command::FsRollback { name } ==> (req matches Request::FsRollback { name: n }
            && n@ == name@),
        cmd matches Command::FsSnapshot { name } ==> (req matches Request::FsSnapshot { name: n }
            && n@ == name@),
        cmd matches Command::Hook { dir: None } ==> req is HookStatus,
{
    match cmd {
        Command::Find { query } | Command::Open { query } => {
            if query@.len() > 0 && (forall|i: int|
                0 <= i < query@.len() ==> !(#[trigger] texts(query@)[i]).contains(' ')) {
                law_fields_of_joined(texts(query@), ' ');
            }
        },
        _ => {},
    }
}

/// The user sees the message, or the error where there is no message.
pub proof fn law_messages(r: ResponseModel, s: Option<Seq<char>>, other: Seq<char>)
    ensures
        r.message is Some ==> Some(message_text(r)) == r.message,
        r.message is None && r.error is Some ==> Some(message_text(r)) == r.error,
        s is Some ==> Some(text_or(s, other)) == s,
        s is None ==> text_or(s, other) == other,
{
}

/// A file that was found is indexed under its path, with what was found of it,
/// and as never opened.
pub proof fn law_found_file_is_described(f: FoundFile, e: FileEntry)
    requires
        entry_of(f, e),
    ensures
        e.path@ == f.path@,
        f.file_name matches Some(s) ==> e.file_name@ == s@,
        f.file_name is None ==> e.file_name@.len() == 0,
        f.extension matches Some(s) ==> e.extension@ == s@,
        f.extension is None ==> e.extension@.len() == 0,
        f.parent matches Some(s) ==> e.parent@ == s@,
        f.parent is None ==> e.parent@.len() == 0,
        e.size == f.size,
        f.modified matches Some(t) ==> e.modified == t,
        f.modified is None ==> e.modified == 0,
        e.depth == f.depth,
        e.freq == 0,
        e.last_open == 0,
{
}

proof fn lemma_flag_at(a: Seq<Seq<char>>, flag: Seq<char>, rest: Seq<Seq<char>>)
    requires
        forall|i: int| 0 <= i < a.len() ==> #[trigger] a[i] != flag,
    ensures
        flag_at(a.push(flag) + rest, flag) == a.len(),
        flag_at(a, flag) == a.len(),
    decreases a.len(),
{
    let s = a.push(flag) + rest;
    if a.len() == 0 {
        assert(s[0] == flag);
    } else {
        let b = a.drop_first();
        assert forall|i: int| 0 <= i < b.len() implies #[trigger] b[i] != flag by {
            assert(b[i] == a[i + 1]);
        }
        lemma_flag_at(b, flag, rest);
        assert(s[0] == a[0]);
        assert(s.drop_first() =~= b.push(flag) + rest);
    }
}

/// The value of a flag is the argument behind its first occurrence; a flag that
/// is not there, or is the last argument, has none.
pub proof fn law_flag_value(a: Seq<Seq<char>>, flag: Seq<char>, value: Seq<char>, rest: Seq<Seq<char>>)
    requires
        forall|i: int| 0 <= i < a.len() ==> #[trigger] a[i] != flag,
    ensures
        value_behind(a.push(flag) + (seq![value] + rest), flag) == Some(value),
        value_behind(a.push(flag), flag) is None,
        value_behind(a, flag) is None,
        has_flag(a.push(flag) + rest, flag),
        !has_flag(a, flag),
{
    lemma_flag_at(a, flag, seq![value] + rest);
    lemma_flag_at(a, flag, rest);
    lemma_flag_at(a, flag, Seq::empty());
    let s = a.push(flag) + (seq![value] + rest);
    assert(s[a.len() as int + 1] == value);
    assert(a.push(flag) + Seq::<Seq<char>>::empty() =~= a.push(flag));
}

/// A mount is served where one is asked for and nothing that comes before it;
/// without any flag, requests are served.
pub proof fn law_modes(args: Seq<Seq<char>>, m: Mode)
    requires
        asks_for(args, m),
    ensures
        m is Version <==> has_flag(args, "--version"@),
        m is Install <==> !has_flag(args, "--version"@) && has_flag(args, "--install"@),
        m matches Mode::Mount { mountpoint } ==> value_behind(args, "--mount"@) == Some(
            mountpoint@,
        ),
        m matches Mode::MountDrive { drive } ==> value_behind(args, "--mount-winfsp"@) == Some(
            drive@,
        ),
        m is Serve ==> value_behind(args, "--mount"@) is None && value_behind(
            args,
            "--mount-winfsp"@,
        ) is None && !has_flag(args, "--uninstall"@) && !has_flag(args, "--winfsp-probe"@),
{
}

/// The names of the log levels.
pub proof fn law_levels(l: Seq<char>)
    ensures
        level_named("trace"@) == LevelFilter::Trace,
        level_named("debug"@) == LevelFilter::Debug,
        level_named("info"@) == LevelFilter::Info,
        level_named("warn"@) == LevelFilter::Warn,
        level_named("error"@) == LevelFilter::Error,
        l != "trace"@ && l != "debug"@ && l != "warn"@ && l != "error"@ ==> level_named(l)
            == LevelFilter::Info,
{
    reveal_strlit("trace");
    reveal_strlit("debug");
    reveal_strlit("info");
    reveal_strlit("warn");
    reveal_strlit("error");
    assert("trace"@[0] == 't' && "debug"@[0] == 'd' && "info"@[0] == 'i' && "warn"@[0] == 'w'
        && "error"@[0] == 'e');
}

/// A directory that is hooked is recorded, and the settings are saved, where it
/// was not recorded before; hooking it again changes no setting.
pub proof fn law_hooked_directory_is_recorded(
    before: DaemonState,
    after: DaemonState,
    dir: Seq<char>,
    canonical: Option<String>,
    step: Hook,
    other: Seq<char>,
)
    requires
        hook_begun(before, after, dir, true, canonical, step),
    ensures
        step is Index,
        ({
            let root = step->root@;
            let (old_dirs, dirs) = (before.config@.root_dirs, after.config@.root_dirs);
            &&& dirs.contains(root)
            &&& other != root ==> dirs.contains(other) == old_dirs.contains(other)
            &&& step->save == !old_dirs.contains(root)
            &&& !step->save ==> after.config@ == before.config@
            &&& step->save ==> dirs.len() == old_dirs.len() + 1
            &&& after.config@.max_results == before.config@.max_results
            &&& after.config@.lambda == before.config@.lambda
            &&& after.config@.retrain_threshold == before.config@.retrain_threshold
            &&& after.config@.log_level == before.config@.log_level
        }),
        canonical matches Some(c) ==> (!begins_with(c@, seq!['\\', '\\', '?', '\\']) ==> step->root@
            == c@),
        canonical is None && !begins_with(dir, seq!['\\', '\\', '?', '\\']) ==> step->root@ == dir,
{
    let root = step->root@;
    let (old_dirs, dirs) = (before.config@.root_dirs, after.config@.root_dirs);
    if !old_dirs.contains(root) {
        assert(dirs[old_dirs.len() as int] == root);
        if old_dirs.contains(other) {
            let i = choose|i: int| 0 <= i < old_dirs.len() && old_dirs[i] == other;
            assert(dirs[i] == other);
        }
        if other != root && dirs.contains(other) {
            let i = choose|i: int| 0 <= i < dirs.len() && dirs[i] == other;
            assert(old_dirs[i] == other);
        }
    } else {
        assert(after.config@ == before.config@);
    }
}

/// The cache of blocks takes 1 GiB unless told otherwise.
pub proof fn law_block_cache_limit()
    ensures
        DEFAULT_CACHE_BYTES == 1024 * 1024 * 1024,
{
}

/// The answer to a change of the volume says what was changed.
pub proof fn law_changes_are_named(
    before: DaemonState,
    after: DaemonState,
    req: Request,
    ctx: Context,
    resp: Response,
)
    requires
        handled(before, after, req, ctx, Outcome::Reply(resp)),
        resp@.error is None,
    ensures
        req matches Request::FsMkdir { path } ==> resp@.message is Some && ends_with(
            resp@.message.unwrap(),
            path@,
        ),
        req matches Request::FsRm { path } ==> resp@.message is Some && ends_with(
            resp@.message.unwrap(),
            path@,
        ),
        req matches Request::FsSnapshot { name } ==> resp@.message is Some && contains_text(
            resp@.message.unwrap(),
            name@,
        ),
        req matches Request::FsRollback { name } ==> resp@.message is Some && contains_text(
            resp@.message.unwrap(),
            name@,
        ),
{
    match req {
        Request::FsMkdir { path } => {
            lemma_ends("created directory "@, path@);
        },
        Request::FsRm { path } => {
            lemma_ends("removed "@, path@);
        },
        Request::FsSnapshot { name } => {
            law_contains("snapshot '"@, name@, "' created"@, name@);
        },
        Request::FsRollback { name } => {
            law_contains("rolled back to snapshot '"@, name@, "'"@, name@);
        },
        _ => {},
    }
}

/// The answer to a hook says which directory was hooked and how many files were
/// indexed.
pub proof fn law_hook_is_told(root: Seq<char>, count: usize, done: HookDone)
    requires
        hook_done(root, count, done),
    ensures
        done.response@.message is Some,
        contains_text(done.response@.message.unwrap(), root),
        contains_text(done.response@.message.unwrap(), decimal_text(count as nat) + " files"@),
        done.response@.error is None,
{
    let message = done.response@.message.unwrap();
    let n = decimal_text(count as nat);
    reveal_strlit(" files, learning enabled");
    reveal_strlit(" files");
    reveal_strlit(", learning enabled");
    assert(" files, learning enabled"@ =~= " files"@ + ", learning enabled"@);
    law_contains("hooked onto "@, root, " — indexed "@ + n + " files, learning enabled"@, root);
    assert(message =~= "hooked onto "@ + root + (" — indexed "@ + n + " files, learning enabled"@));
    law_contains(
        "hooked onto "@ + root + " — indexed "@,
        n + " files"@,
        ", learning enabled"@,
        root,
    );
    assert(message =~= "hooked onto "@ + root + " — indexed "@ + (n + " files"@)
        + ", learning enabled"@);
}

} // verus!
