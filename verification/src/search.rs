//! The lookup of files by a query.

use vstd::prelude::*;
use vstd::utf8::encode_utf8;

use crate::classifier::{score_keys, tokens, Classifier};
use crate::protocol::{scored, ScoredPath};
use crate::rank::{is_ranking, rank, score_key, score_order};
use crate::sorted::SortedMap;
use crate::store::{
    all_of, distinct_files, entries_under, indexed, keyed, law_all_files_are_distinct,
    law_found_file_has_the_name, law_found_files_are_distinct, lemma_same_path, zero_free, FileEntry,
    LinkKind, Store,
};
use crate::text::{contains, contains_text, lowercase, texts, to_lower, trim, trim_back, trim_front};

verus! {

/// How many levels a search goes up from a guessed directory.
pub const MAX_BACKTRACK_LEVELS: usize = 4;

/// The bit pattern of the confidence of an exact match.
pub const CERTAIN: u64 = 0x3ff0_0000_0000_0000;

/// The bit pattern of the confidence of a match that nothing speaks for.
pub const UNKNOWN: u64 = 0;

/// A guess of the classifier: a directory and its ancestors, from the inside
/// out, and how sure the classifier is, as the bit pattern of a double.
pub struct Guess {
    pub chain: Vec<String>,
    pub confidence: u64,
}

/// A file that matches a query.
pub struct Hit {
    pub entry: FileEntry,
    pub confidence: u64,
}

/// What a look-up found.
pub enum Found {
    /// The query is the name of these files.
    Named(Vec<Hit>),
    /// These files match the query.
    Matching(Vec<Hit>),
}

/// The hits as entries with their confidences.
pub open spec fn hit_list(v: Seq<Hit>) -> Seq<(FileEntry, u64)> {
    Seq::new(v.len(), |i: int| (v[i].entry, v[i].confidence))
}

/// The entries, each with the same confidence.
pub open spec fn with_confidence(v: Seq<FileEntry>, confidence: u64) -> Seq<(FileEntry, u64)> {
    Seq::new(v.len(), |i: int| (v[i], confidence))
}

/// A name matches a query: it contains the query, or the two have a word piece
/// in common.
pub open spec fn lower_matches(
    q: Seq<char>,
    q_tokens: Seq<Seq<char>>,
    name: Seq<char>,
    name_tokens: Seq<Seq<char>>,
) -> bool {
    contains_text(name, q) || exists|t: Seq<char>| #[trigger]
        q_tokens.contains(t) && name_tokens.contains(t)
}

/// The name of a file matches a query, in whatever case.
pub open spec fn name_matches(query: Seq<char>, file_name: Seq<char>) -> bool {
    let q = lowercase(query);
    let name = lowercase(file_name);
    lower_matches(q, tokens(q), name, tokens(name))
}

/// Those of the first `n` files whose names match the query.
pub open spec fn matching(query: Seq<char>, files: Seq<FileEntry>, n: int) -> Seq<FileEntry>
    decreases n,
{
    if n <= 0 {
        Seq::empty()
    } else if name_matches(query, files[n - 1].file_name@) {
        matching(query, files, n - 1).push(files[n - 1])
    } else {
        matching(query, files, n - 1)
    }
}

/// The files in a directory that match the query.
pub open spec fn matching_in(index: Map<u64, FileEntry>, query: Seq<char>, dir: Seq<char>) -> Seq<
    FileEntry,
> {
    let files = entries_under(LinkKind::Parent, index, dir);
    matching(query, files, files.len() as int)
}

/// The search along a guess from `level` on, where the directories in `visited`
/// have been searched before: the matches in the first directory that has any,
/// and the directories searched so far.
pub open spec fn backtrack(
    index: Map<u64, FileEntry>,
    query: Seq<char>,
    chain: Seq<Seq<char>>,
    level: int,
    visited: Set<Seq<char>>,
) -> (Set<Seq<char>>, Seq<FileEntry>)
    decreases chain.len() - level,
{
    if level < 0 || level >= chain.len() || level > MAX_BACKTRACK_LEVELS {
        (visited, Seq::empty())
    } else {
        let key = lowercase(chain[level]);
        if visited.contains(key) {
            (visited, Seq::empty())
        } else {
            let found = matching_in(index, query, chain[level]);
            if found.len() > 0 {
                (visited.insert(key), found)
            } else {
                backtrack(index, query, chain, level + 1, visited.insert(key))
            }
        }
    }
}

/// What the guesses mean.
pub open spec fn guess_list(v: Seq<Guess>) -> Seq<(Seq<Seq<char>>, u64)> {
    Seq::new(v.len(), |i: int| (texts(v[i].chain@), v[i].confidence))
}

/// The search along the first `n` guesses: the directories searched, and the
/// matches with the confidence of their guess.
pub open spec fn guessed(
    index: Map<u64, FileEntry>,
    query: Seq<char>,
    guesses: Seq<(Seq<Seq<char>>, u64)>,
    n: int,
) -> (Set<Seq<char>>, Seq<(FileEntry, u64)>)
    decreases n,
{
    if n <= 0 {
        (Set::empty(), Seq::empty())
    } else {
        let (visited, hits) = guessed(index, query, guesses, n - 1);
        let (seen, found) = backtrack(index, query, guesses[n - 1].0, 0, visited);
        (seen, hits + with_confidence(found, guesses[n - 1].1))
    }
}

/// The files whose name is the query, without white space around it.
pub open spec fn named(index: Map<u64, FileEntry>, query: Seq<char>) -> Seq<FileEntry> {
    let q = trim_back(trim_front(query));
    if q.len() == 0 {
        Seq::empty()
    } else {
        entries_under(LinkKind::Name, index, q)
    }
}

/// The matches of a query: those that the guesses lead to or, where there are
/// none, those in the whole index.
pub open spec fn matches_of(
    index: Map<u64, FileEntry>,
    query: Seq<char>,
    guesses: Seq<(Seq<Seq<char>>, u64)>,
) -> Seq<(FileEntry, u64)> {
    let hits = guessed(index, query, guesses, guesses.len() as int).1;
    if hits.len() > 0 {
        hits
    } else {
        with_confidence(
            matching(query, all_of(index), all_of(index).len() as int),
            UNKNOWN,
        )
    }
}

/// Whether two lists of words have one in common.
fn share_word(a: &Vec<String>, b: &Vec<String>) -> (r: bool)
    ensures
        r == exists|t: Seq<char>| #[trigger] texts(a@).contains(t) && texts(b@).contains(t),
{
    let mut i: usize = 0;
    while i < a.len()
        invariant
            i <= a@.len(),
            forall|j: int| 0 <= j < i ==> !texts(b@).contains((#[trigger] a@[j])@),
        decreases a@.len() - i,
    {
        let mut k: usize = 0;
        while k < b.len()
            invariant
                i < a@.len(),
                k <= b@.len(),
                forall|j: int| 0 <= j < k ==> (#[trigger] b@[j])@ != a@[i as int]@,
            decreases b@.len() - k,
        {
            if a[i] == b[k] {
                proof {
                    let t = a@[i as int]@;
                    assert(texts(a@)[i as int] == t);
                    assert(texts(b@)[k as int] == t);
                    assert(texts(a@).contains(t) && texts(b@).contains(t));
                }
                return true;
            }
            k = k + 1;
        }
        proof {
            if texts(b@).contains(a@[i as int]@) {
                let j = choose|j: int| 0 <= j < texts(b@).len() && texts(b@)[j] == a@[i as int]@;
                assert(b@[j]@ == a@[i as int]@);
            }
        }
        i = i + 1;
    }
    proof {
        assert forall|t: Seq<char>| #[trigger] texts(a@).contains(t) implies !texts(b@).contains(
            t,
        ) by {
            let j = choose|j: int| 0 <= j < texts(a@).len() && texts(a@)[j] == t;
            assert(a@[j]@ == t);
        }
    }
    false
}

/// Whether a name in lower case matches a query in lower case, both given with
/// their word pieces.
pub fn match_lower(q: &str, q_tokens: &Vec<String>, name: &str, name_tokens: &Vec<String>) -> (r: bool)
    ensures
        r == lower_matches(q@, texts(q_tokens@), name@, texts(name_tokens@)),
{
    contains(name, q) || share_word(q_tokens, name_tokens)
}

/// The files whose names match a query.
pub fn fuzzy_match(query: &str, candidates: Vec<FileEntry>) -> (v: Vec<FileEntry>)
    ensures
        v@ == matching(query@, candidates@, candidates@.len() as int),
{
    let q = to_lower(query);
    let q_tokens = Classifier::tokenize(q.as_str());
    let mut v: Vec<FileEntry> = Vec::new();
    let mut i: usize = 0;
    while i < candidates.len()
        invariant
            q@ == lowercase(query@),
            texts(q_tokens@) == tokens(q@),
            i <= candidates@.len(),
            v@ == matching(query@, candidates@, i as int),
        decreases candidates@.len() - i,
    {
        let name = to_lower(candidates[i].file_name.as_str());
        let name_tokens = Classifier::tokenize(name.as_str());
        if match_lower(q.as_str(), &q_tokens, name.as_str(), &name_tokens) {
            v.push(candidates[i].copy());
        }
        i = i + 1;
    }
    v
}

fn hits_of(files: Vec<FileEntry>, confidence: u64) -> (v: Vec<Hit>)
    ensures
        hit_list(v@) == with_confidence(files@, confidence),
{
    let mut v: Vec<Hit> = Vec::new();
    let mut i: usize = 0;
    while i < files.len()
        invariant
            i <= files@.len(),
            v@.len() == i,
            forall|j: int|
                0 <= j < i ==> (#[trigger] v@[j]).entry == files@[j] && v@[j].confidence
                    == confidence,
        decreases files@.len() - i,
    {
        v.push(Hit { entry: files[i].copy(), confidence });
        i = i + 1;
    }
    assert(hit_list(v@) =~= with_confidence(files@, confidence));
    v
}

/// Searches a guessed directory and, level by level, up to four ancestors.
fn search_chain(store: &Store, query: &str, chain: &Vec<String>, visited: &mut SortedMap<String, ()>) -> (v: Vec<
    FileEntry,
>)
    requires
        store.wf(),
    ensures
        (final(visited)@.dom(), v@) == backtrack(
            store@,
            query@,
            texts(chain@),
            0,
            old(visited)@.dom(),
        ),
{
    let ghost want = backtrack(store@, query@, texts(chain@), 0, old(visited)@.dom());
    let mut level: usize = 0;
    while level < chain.len() && level <= MAX_BACKTRACK_LEVELS
        invariant
            store.wf(),
            level <= chain@.len(),
            level <= MAX_BACKTRACK_LEVELS + 1,
            want == backtrack(store@, query@, texts(chain@), 0, old(visited)@.dom()),
            want == backtrack(
                store@,
                query@,
                texts(chain@),
                level as int,
                visited@.dom(),
            ),
        decreases chain@.len() - level,
    {
        assert(texts(chain@)[level as int] == chain@[level as int]@);
        let key = to_lower(chain[level].as_str());
        if visited.contains_key(&key) {
            return Vec::new();
        }
        let ghost before = visited@.dom();
        let ghost k = key@;
        visited.insert(key, ());
        assert(visited@.dom() =~= before.insert(k));
        let files = store.files_in(chain[level].as_str());
        let found = fuzzy_match(query, files);
        if found.len() > 0 {
            return found;
        }
        assert(found@ =~= Seq::empty());
        level = level + 1;
    }
    Vec::new()
}

/// Looks files up: those that have the query as their name or, where there are
/// none, those in the guessed directories that match it, going at most four
/// levels up where nothing matches or, where there are none either, those in
/// the whole index.
pub fn find(store: &Store, guesses: &Vec<Guess>, query: &str) -> (r: Found)
    requires
        store.wf(),
    ensures
        match r {
            Found::Named(v) => named(store@, query@).len() > 0 && hit_list(v@) == with_confidence(
                named(store@, query@),
                CERTAIN,
            ),
            Found::Matching(v) => named(store@, query@).len() == 0 && hit_list(v@) == matches_of(
                store@,
                query@,
                guess_list(guesses@),
            ),
        },
{
    let q = trim(query);
    if !q.as_str().is_empty() {
        let files = store.files_named(q.as_str());
        if files.len() > 0 {
            return Found::Named(hits_of(files, CERTAIN));
        }
    }
    let ghost all = guess_list(guesses@);
    let mut visited: SortedMap<String, ()> = SortedMap::new();
    let mut hits: Vec<Hit> = Vec::new();
    let mut i: usize = 0;
    proof {
        assert(visited@.dom() =~= Set::empty());
        assert(hit_list(hits@) =~= Seq::empty());
    }
    while i < guesses.len()
        invariant
            store.wf(),
            all == guess_list(guesses@),
            i <= guesses@.len(),
            (visited@.dom(), hit_list(hits@)) == guessed(store@, query@, all, i as int),
        decreases guesses@.len() - i,
    {
        assert(all[i as int] == (texts(guesses@[i as int].chain@), guesses@[i as int].confidence));
        let found = search_chain(store, query, &guesses[i].chain, &mut visited);
        let ghost before = hits@;
        let ghost more = with_confidence(found@, guesses@[i as int].confidence);
        let mut new_hits = hits_of(found, guesses[i].confidence);
        let ghost added = new_hits@;
        hits.append(&mut new_hits);
        assert(hit_list(hits@) =~= hit_list(before) + hit_list(added));
        i = i + 1;
    }
    assert(hit_list(hits@).len() == hits@.len());
    if hits.len() == 0 {
        let files = fuzzy_match(query, store.all_entries());
        return Found::Matching(hits_of(files, UNKNOWN));
    }
    Found::Matching(hits)
}

/// The scores of the results.
pub open spec fn scores(v: Seq<(Seq<char>, u64)>) -> Seq<u64> {
    Seq::new(v.len(), |i: int| v[i].1)
}

/// The results in the order `p`.
pub open spec fn in_order(v: Seq<(Seq<char>, u64)>, p: Seq<usize>) -> Seq<(Seq<char>, u64)> {
    Seq::new(p.len(), |i: int| v[p[i] as int])
}

/// The first `n` results without those that have the same path as the one
/// before.
pub open spec fn deduped(v: Seq<(Seq<char>, u64)>, n: int) -> Seq<(Seq<char>, u64)>
    decreases n,
{
    if n <= 0 {
        Seq::empty()
    } else if n >= 2 && v[n - 1].0 == v[n - 2].0 {
        deduped(v, n - 1)
    } else {
        deduped(v, n - 1).push(v[n - 1])
    }
}

/// The first `max` results.
pub open spec fn truncated(v: Seq<(Seq<char>, u64)>, max: usize) -> Seq<(Seq<char>, u64)> {
    if v.len() <= max {
        v
    } else {
        v.take(max as int)
    }
}

/// `r` holds the results from the highest score to the lowest, equal ones in
/// their old order; with `dedup`, only the first of neighbours with the same
/// path; and at most `max` of them.
pub open spec fn is_ranked(
    results: Seq<(Seq<char>, u64)>,
    dedup: bool,
    max: usize,
    r: Seq<(Seq<char>, u64)>,
) -> bool {
    exists|p: Seq<usize>| #[trigger]
        is_ranking(score_keys(scores(results)), p) && r == truncated(
            if dedup {
                deduped(in_order(results, p), p.len() as int)
            } else {
                in_order(results, p)
            },
            max,
        )
}

/// Ranks scored results.
pub fn rank_results(results: &Vec<ScoredPath>, dedup: bool, max: usize) -> (r: Vec<ScoredPath>)
    ensures
        is_ranked(scored(results@), dedup, max, scored(r@)),
{
    let ghost all = scored(results@);
    let mut keys: Vec<i64> = Vec::new();
    let mut i: usize = 0;
    while i < results.len()
        invariant
            i <= results@.len(),
            keys@.len() == i,
            forall|j: int| 0 <= j < i ==> (#[trigger] keys@[j]) == score_order(results@[j].score),
        decreases results@.len() - i,
    {
        keys.push(score_key(results[i].score));
        i = i + 1;
    }
    assert(keys@ =~= score_keys(scores(all)));
    let p = rank(&keys);
    let ghost order = in_order(all, p@);
    let ghost want = if dedup {
        deduped(order, order.len() as int)
    } else {
        order
    };
    let mut out: Vec<ScoredPath> = Vec::new();
    let mut j: usize = 0;
    proof {
        assert(scored(out@) =~= order.take(0));
        assert(scored(out@) =~= deduped(order, 0));
    }
    while j < p.len()
        invariant
            all == scored(results@),
            is_ranking(score_keys(scores(all)), p@),
            order == in_order(all, p@),
            j <= p@.len(),
            scored(out@) == if dedup {
                deduped(order, j as int)
            } else {
                order.take(j as int)
            },
        decreases p@.len() - j,
    {
        let at: usize = p[j];
        assert(at < results@.len());
        proof {
            assert(order[j as int] == all[at as int]);
            assert(all[at as int] == (results@[at as int].path@, results@[at as int].score));
            if j >= 1 {
                let before = p@[j - 1] as int;
                assert(order[j - 1] == all[before]);
                assert(all[before] == (results@[before].path@, results@[before].score));
            }
            assert(order.take(j + 1) =~= order.take(j as int).push(order[j as int]));
        }
        let repeated = dedup && j >= 1 && results[p[j - 1]].path == results[at].path;
        if !repeated {
            let ghost before = out@;
            out.push(ScoredPath { path: results[at].path.clone(), score: results[at].score });
            assert(scored(out@) =~= scored(before).push(order[j as int]));
        }
        j = j + 1;
    }
    assert(order.take(j as int) =~= order);
    assert(scored(out@) == want);
    if out.len() > max {
        out.truncate(max);
    }
    assert(scored(out@) =~= truncated(want, max));
    out
}

/// Results come from the highest score to the lowest, and there are at most as
/// many as were asked for.
pub proof fn law_results_are_ranked(
    results: Seq<(Seq<char>, u64)>,
    dedup: bool,
    max: usize,
    r: Seq<(Seq<char>, u64)>,
)
    requires
        is_ranked(results, dedup, max, r),
    ensures
        r.len() <= max,
        forall|i: int, j: int|
            0 <= i < j < r.len() ==> score_order((#[trigger] r[i]).1) >= score_order(
                (#[trigger] r[j]).1,
            ),
        forall|i: int| 0 <= i < r.len() ==> results.contains(#[trigger] r[i]),
{
    let p = choose|p: Seq<usize>| #[trigger]
        is_ranking(score_keys(scores(results)), p) && r == truncated(
            if dedup {
                deduped(in_order(results, p), p.len() as int)
            } else {
                in_order(results, p)
            },
            max,
        );
    let order = in_order(results, p);
    assert forall|i: int, j: int| 0 <= i < j < order.len() implies score_order(
        (#[trigger] order[i]).1,
    ) >= score_order((#[trigger] order[j]).1) by {
        assert(crate::rank::ranked_before(score_keys(scores(results)), p[i], p[j]));
    }
    assert forall|i: int| 0 <= i < order.len() implies results.contains(#[trigger] order[i]) by {
        assert(results[p[i] as int] == order[i]);
    }
    if dedup {
        lemma_deduped(order, order.len() as int);
        let d = deduped(order, order.len() as int);
        assert forall|i: int| 0 <= i < d.len() implies results.contains(#[trigger] d[i]) by {
            let k = choose|k: int| 0 <= k < order.len() && #[trigger] order[k] == d[i];
            assert(results.contains(order[k]));
        }
    }
}

/// Leaving out repeated results keeps the order of the others.
proof fn lemma_deduped(v: Seq<(Seq<char>, u64)>, n: int)
    requires
        0 <= n <= v.len(),
        forall|i: int, j: int|
            0 <= i < j < v.len() ==> score_order((#[trigger] v[i]).1) >= score_order(
                (#[trigger] v[j]).1,
            ),
    ensures
        forall|i: int|
            0 <= i < deduped(v, n).len() ==> exists|k: int|
                0 <= k < n && #[trigger] v[k] == #[trigger] deduped(v, n)[i],
        forall|i: int, j: int|
            0 <= i < j < deduped(v, n).len() ==> score_order((#[trigger] deduped(v, n)[i]).1)
                >= score_order((#[trigger] deduped(v, n)[j]).1),
    decreases n,
{
    if n > 0 {
        lemma_deduped(v, n - 1);
        let before = deduped(v, n - 1);
        let now = deduped(v, n);
        assert forall|i: int| 0 <= i < now.len() implies exists|k: int|
            0 <= k < n && #[trigger] v[k] == #[trigger] now[i] by {
            if i < before.len() {
                assert(now[i] == before[i]);
            } else {
                assert(v[n - 1] == now[i]);
            }
        }
        assert forall|i: int, j: int| 0 <= i < j < now.len() implies score_order(
            (#[trigger] now[i]).1,
        ) >= score_order((#[trigger] now[j]).1) by {
            assert(now[i] == before[i]);
            if j < before.len() {
                assert(now[j] == before[j]);
            } else {
                let k = choose|k: int| 0 <= k < n - 1 && #[trigger] v[k] == before[i];
                assert(score_order(v[k].1) >= score_order(v[n - 1].1));
            }
        }
    }
}

/// Every match comes from the searched list, and its name matches the query.
pub proof fn law_matches_match(
    query: Seq<char>,
    files: Seq<FileEntry>,
    n: int,
    i: int,
)
    requires
        0 <= n <= files.len(),
        0 <= i < matching(query, files, n).len(),
    ensures
        name_matches(query, matching(query, files, n)[i].file_name@),
        files.contains(matching(query, files, n)[i]),
    decreases n,
{
    let before = matching(query, files, n - 1);
    if i < before.len() {
        law_matches_match(query, files, n - 1, i);
    } else {
        assert(files[n - 1] == matching(query, files, n)[i]);
    }
}

/// No file in the searched list that matches the query is left out.
pub proof fn law_no_match_is_left_out(query: Seq<char>, files: Seq<FileEntry>, n: int, i: int)
    requires
        0 <= i < n <= files.len(),
        name_matches(query, files[i].file_name@),
    ensures
        matching(query, files, n).contains(files[i]),
    decreases n,
{
    let now = matching(query, files, n);
    if i < n - 1 {
        law_no_match_is_left_out(query, files, n - 1, i);
        let before = matching(query, files, n - 1);
        let j = choose|j: int| 0 <= j < before.len() && before[j] == files[i];
        assert(now[j] == before[j]);
    } else {
        assert(now[now.len() - 1] == files[i]);
    }
}

/// No two of the results have the same path.
pub open spec fn distinct_results(v: Seq<(Seq<char>, u64)>) -> bool {
    forall|i: int, j: int| 0 <= i < j < v.len() ==> (#[trigger] v[i]).0 != (#[trigger] v[j]).0
}

proof fn lemma_nothing_to_dedup(v: Seq<(Seq<char>, u64)>, n: int)
    requires
        distinct_results(v),
        0 <= n <= v.len(),
    ensures
        deduped(v, n) == v.take(n),
    decreases n,
{
    if n > 0 {
        lemma_nothing_to_dedup(v, n - 1);
        if n >= 2 {
            assert(v[n - 2].0 != v[n - 1].0);
        }
        assert(v.take(n) =~= v.take(n - 1).push(v[n - 1]));
    } else {
        assert(v.take(n) =~= Seq::empty());
    }
}

/// Ranking files with different paths gives results with different paths.
pub proof fn law_ranked_results_are_distinct(
    results: Seq<(Seq<char>, u64)>,
    dedup: bool,
    max: usize,
    r: Seq<(Seq<char>, u64)>,
)
    requires
        is_ranked(results, dedup, max, r),
        distinct_results(results),
    ensures
        distinct_results(r),
{
    let keys = score_keys(scores(results));
    let p = choose|p: Seq<usize>| #[trigger]
        is_ranking(keys, p) && r == truncated(
            if dedup {
                deduped(in_order(results, p), p.len() as int)
            } else {
                in_order(results, p)
            },
            max,
        );
    let order = in_order(results, p);
    assert forall|i: int, j: int| 0 <= i < j < order.len() implies (#[trigger] order[i]).0 != (
    #[trigger] order[j]).0 by {
        assert(crate::rank::ranked_before(keys, p[i], p[j]));
        let (a, b) = (p[i] as int, p[j] as int);
        assert(a != b);
        if a < b {
            assert(results[a].0 != results[b].0);
        } else {
            assert(results[b].0 != results[a].0);
        }
    }
    lemma_nothing_to_dedup(order, order.len() as int);
    assert(order.take(order.len() as int) =~= order);
}

/// No two of the hits have the same path.
pub open spec fn distinct_hits(v: Seq<(FileEntry, u64)>) -> bool {
    forall|i: int, j: int|
        0 <= i < j < v.len() ==> (#[trigger] v[i]).0.path@ != (#[trigger] v[j]).0.path@
}

/// The name has no zero byte when it is written in lower case.
pub open spec fn plain(name: Seq<char>) -> bool {
    zero_free(encode_utf8(lowercase(name)))
}

proof fn lemma_matching_distinct(query: Seq<char>, files: Seq<FileEntry>, n: int)
    requires
        distinct_files(files),
        0 <= n <= files.len(),
    ensures
        distinct_files(matching(query, files, n)),
        forall|i: int|
            0 <= i < matching(query, files, n).len() ==> exists|j: int|
                0 <= j < n && #[trigger] files[j] == #[trigger] matching(query, files, n)[i],
    decreases n,
{
    if n > 0 {
        lemma_matching_distinct(query, files, n - 1);
        let before = matching(query, files, n - 1);
        let now = matching(query, files, n);
        if name_matches(query, files[n - 1].file_name@) {
            assert forall|i: int| 0 <= i < now.len() implies exists|j: int|
                0 <= j < n && #[trigger] files[j] == #[trigger] now[i] by {
                if i < before.len() {
                    let j = choose|j: int|
                        0 <= j < n - 1 && #[trigger] files[j] == before[i];
                    assert(files[j] == now[i]);
                } else {
                    assert(files[n - 1] == now[i]);
                }
            }
            assert forall|i: int, j: int| 0 <= i < j < now.len() implies (
            #[trigger] now[i]).path@ != (#[trigger] now[j]).path@ by {
                assert(now[i] == before[i]);
                if j < before.len() {
                    assert(now[j] == before[j]);
                } else {
                    let x = choose|x: int| 0 <= x < n - 1 && #[trigger] files[x] == before[i];
                    assert(files[x].path@ != files[n - 1].path@);
                }
            }
        }
    }
}

/// What a search along a guess finds is new: it stands in a directory that was
/// not searched before.
proof fn lemma_backtrack_is_new(
    index: Map<u64, FileEntry>,
    query: Seq<char>,
    chain: Seq<Seq<char>>,
    level: int,
    visited: Set<Seq<char>>,
)
    requires
        index.dom().finite(),
        keyed(index),
        forall|h: u64| #[trigger] index.contains_key(h) ==> plain(index[h].parent@),
        forall|i: int| 0 <= i < chain.len() ==> plain(#[trigger] chain[i]),
        0 <= level,
    ensures
        ({
            let (seen, found) = backtrack(index, query, chain, level, visited);
            &&& visited.subset_of(seen)
            &&& distinct_files(found)
            &&& forall|i: int|
                0 <= i < found.len() ==> {
                    &&& indexed(index, #[trigger] found[i])
                    &&& !visited.contains(lowercase(found[i].parent@))
                    &&& seen.contains(lowercase(found[i].parent@))
                }
        }),
    decreases chain.len() - level,
{
    if level < chain.len() && level <= MAX_BACKTRACK_LEVELS {
        let key = lowercase(chain[level]);
        if !visited.contains(key) {
            let files = entries_under(LinkKind::Parent, index, chain[level]);
            let found = matching_in(index, query, chain[level]);
            law_found_files_are_distinct(LinkKind::Parent, index, chain[level]);
            lemma_matching_distinct(query, files, files.len() as int);
            if found.len() > 0 {
                assert forall|i: int| 0 <= i < found.len() implies indexed(
                    index,
                    #[trigger] found[i],
                ) && lowercase(found[i].parent@) == key by {
                    let j = choose|j: int|
                        0 <= j < files.len() && #[trigger] files[j] == found[i];
                    assert(indexed(index, files[j]));
                    let h = choose|h: u64| #[trigger] index.contains_key(h) && index[h] == files[j];
                    assert(plain(index[h].parent@));
                    law_found_file_has_the_name(LinkKind::Parent, index, chain[level], j);
                }
            } else {
                lemma_backtrack_is_new(index, query, chain, level + 1, visited.insert(key));
            }
        }
    }
}

proof fn lemma_guessed_distinct(
    index: Map<u64, FileEntry>,
    query: Seq<char>,
    guesses: Seq<(Seq<Seq<char>>, u64)>,
    n: int,
)
    requires
        index.dom().finite(),
        keyed(index),
        forall|h: u64| #[trigger] index.contains_key(h) ==> plain(index[h].parent@),
        forall|g: int, i: int|
            0 <= g < guesses.len() && 0 <= i < guesses[g].0.len() ==> plain(
                #[trigger] guesses[g].0[i],
            ),
        0 <= n <= guesses.len(),
    ensures
        ({
            let (visited, hits) = guessed(index, query, guesses, n);
            &&& distinct_hits(hits)
            &&& forall|i: int|
                0 <= i < hits.len() ==> indexed(index, (#[trigger] hits[i]).0) && visited.contains(
                    lowercase(hits[i].0.parent@),
                )
        }),
    decreases n,
{
    if n > 0 {
        lemma_guessed_distinct(index, query, guesses, n - 1);
        let (visited, hits) = guessed(index, query, guesses, n - 1);
        let chain = guesses[n - 1].0;
        lemma_backtrack_is_new(index, query, chain, 0, visited);
        let (seen, found) = backtrack(index, query, chain, 0, visited);
        let all = hits + with_confidence(found, guesses[n - 1].1);
        assert forall|i: int| 0 <= i < all.len() implies indexed(index, (#[trigger] all[i]).0)
            && seen.contains(lowercase(all[i].0.parent@)) by {
            if i < hits.len() {
                assert(all[i] == hits[i]);
            } else {
                assert(all[i].0 == found[i - hits.len()]);
            }
        }
        assert forall|i: int, j: int| 0 <= i < j < all.len() implies (#[trigger] all[i]).0.path@
            != (#[trigger] all[j]).0.path@ by {
            if j < hits.len() {
                assert(all[i] == hits[i] && all[j] == hits[j]);
            } else if i >= hits.len() {
                let (a, b) = (i - hits.len(), j - hits.len());
                assert(all[i].0 == found[a] && all[j].0 == found[b]);
                assert(found[a].path@ != found[b].path@);
            } else {
                assert(all[i] == hits[i]);
                assert(all[j].0 == found[j - hits.len()]);
                if all[i].0.path@ == all[j].0.path@ {
                    lemma_same_path(index, all[i].0, all[j].0);
                }
            }
        }
    }
}

/// A look-up gives no file twice, whichever way it was found, and nothing that
/// is not indexed; directories with zero characters in their names are left
/// out.
pub proof fn law_found_once(
    index: Map<u64, FileEntry>,
    query: Seq<char>,
    guesses: Seq<(Seq<Seq<char>>, u64)>,
)
    requires
        index.dom().finite(),
        keyed(index),
        forall|h: u64| #[trigger] index.contains_key(h) ==> plain(index[h].parent@),
        forall|g: int, i: int|
            0 <= g < guesses.len() && 0 <= i < guesses[g].0.len() ==> plain(
                #[trigger] guesses[g].0[i],
            ),
    ensures
        distinct_files(named(index, query)),
        distinct_hits(matches_of(index, query, guesses)),
        forall|i: int|
            0 <= i < matches_of(index, query, guesses).len() ==> indexed(
                index,
                (#[trigger] matches_of(index, query, guesses)[i]).0,
            ),
{
    law_found_files_are_distinct(LinkKind::Name, index, trim_back(trim_front(query)));
    lemma_guessed_distinct(index, query, guesses, guesses.len() as int);
    let all = all_of(index);
    law_all_files_are_distinct(index);
    lemma_matching_distinct(query, all, all.len() as int);
    let found = matching(query, all, all.len() as int);
    let hits = matches_of(index, query, guesses);
    if guessed(index, query, guesses, guesses.len() as int).1.len() == 0 {
        assert forall|i: int| 0 <= i < hits.len() implies indexed(index, (#[trigger] hits[i]).0) by {
            let j = choose|j: int| 0 <= j < all.len() && #[trigger] all[j] == found[i];
            assert(indexed(index, all[j]));
        }
        assert forall|i: int, j: int| 0 <= i < j < hits.len() implies (#[trigger] hits[i]).0.path@
            != (#[trigger] hits[j]).0.path@ by {
            assert(found[i].path@ != found[j].path@);
        }
    }
}

} // verus!
