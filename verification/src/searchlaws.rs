//! What holds of looking files up and of ranking them.

use vstd::prelude::*;

use crate::cache::counted;
use crate::classifier::{score_keys, tokens};
use crate::rank::{is_ranking, lemma_ranking_covers, ranked_before, score_order};
use crate::search::{
    backtrack, deduped, guessed, in_order, is_ranked, law_matches_match, law_no_match_is_left_out,
    matches_of, matching, matching_in, name_matches, named, plain, scores, truncated,
    with_confidence, CERTAIN, UNKNOWN,
};
use crate::store::{
    all_of, entries_under, indexed, keyed, law_all_files_are_distinct, law_found_file_has_the_name,
    law_found_files_are_distinct, law_indexed_file_is_found, opened, path_key, upserted, with_stats,
    FileEntry, LinkKind,
};
use crate::text::{contains_text, is_space, lowercase};
use crate::textlaws::{law_contains, law_trim};

verus! {

/// A file matches where its name contains the query, in whatever case.
pub proof fn law_substring_matches(query: Seq<char>, name: Seq<char>, i: int)
    requires
        0 <= i <= lowercase(name).len() - lowercase(query).len(),
        lowercase(name).subrange(i, i + lowercase(query).len()) == lowercase(query),
    ensures
        name_matches(query, name),
{
    let q = lowercase(query);
    let n = lowercase(name);
    law_contains(n.take(i), q, n.skip(i + q.len()), n);
    assert(n.take(i) + q + n.skip(i + q.len()) =~= n) by {
        assert forall|k: int| i <= k < i + q.len() implies n[k] == q[k - i] by {
            assert(n.subrange(i, i + q.len())[k - i] == n[k]);
        }
    }
    assert(contains_text(n, q));
}

/// A file matches where its name has a word piece in common with the query.
pub proof fn law_shared_word_matches(query: Seq<char>, name: Seq<char>, t: Seq<char>)
    requires
        tokens(lowercase(query)).contains(t),
        tokens(lowercase(name)).contains(t),
    ensures
        name_matches(query, name),
{
}

/// A file that matches has a name that contains the query or has a word piece
/// in common with it.
pub proof fn law_match_has_a_reason(query: Seq<char>, name: Seq<char>)
    requires
        name_matches(query, name),
    ensures
        ({
            let q = lowercase(query);
            let n = lowercase(name);
            ||| exists|i: int| 0 <= i <= n.len() - q.len() && #[trigger] n.subrange(i, i + q.len()) == q
            ||| exists|a: int, b: int|
                0 <= a < tokens(q).len() && 0 <= b < tokens(n).len() && #[trigger] tokens(q)[a]
                    == #[trigger] tokens(n)[b]
        }),
{
    let q = lowercase(query);
    let n = lowercase(name);
    if contains_text(n, q) {
        law_contains(n, q, n, n);
    } else {
        let t = choose|t: Seq<char>| #[trigger] tokens(q).contains(t) && tokens(n).contains(t);
        let a = choose|a: int| 0 <= a < tokens(q).len() && tokens(q)[a] == t;
        let b = choose|b: int| 0 <= b < tokens(n).len() && tokens(n)[b] == t;
        assert(tokens(q)[a] == tokens(n)[b]);
    }
}

proof fn lemma_matching_append(query: Seq<char>, a: Seq<FileEntry>, b: Seq<FileEntry>, n: int)
    requires
        0 <= n <= a.len() + b.len(),
    ensures
        matching(query, a + b, n) == if n <= a.len() {
            matching(query, a, n)
        } else {
            matching(query, a, a.len() as int) + matching(query, b, n - a.len())
        },
    decreases n,
{
    if n > 0 {
        lemma_matching_append(query, a, b, n - 1);
        if n <= a.len() {
            assert((a + b)[n - 1] == a[n - 1]);
        } else {
            let x = matching(query, a, a.len() as int);
            let y = matching(query, b, n - 1 - a.len());
            let f = b[n - 1 - a.len()];
            assert((a + b)[n - 1] == f);
            assert(n - 1 == a.len() ==> y =~= Seq::empty() && x + y =~= x);
            assert((x + y).push(f) =~= x + y.push(f));
        }
    }
}

/// Each file of a list matches or not on its own, and the matches keep their
/// order.
pub proof fn law_matches_keep_their_order(
    query: Seq<char>,
    a: Seq<FileEntry>,
    f: FileEntry,
    b: Seq<FileEntry>,
)
    ensures
        ({
            let all = a.push(f) + b;
            let x = matching(query, a, a.len() as int);
            let y = matching(query, b, b.len() as int);
            matching(query, all, all.len() as int) == if name_matches(query, f.file_name@) {
                x.push(f) + y
            } else {
                x + y
            }
        }),
{
    lemma_matching_append(query, a.push(f), b, a.len() as int + 1 + b.len());
    let front = a.push(f);
    lemma_matching_append(query, a, seq![f], a.len() as int);
    assert(a + seq![f] =~= front);
    assert(front[a.len() as int] == f);
    if b.len() == 0 {
        assert(matching(query, b, 0) =~= Seq::empty());
        assert(matching(query, front, front.len() as int) + matching(query, b, 0) =~= matching(
            query,
            front,
            front.len() as int,
        ));
    }
}

/// The matches in a directory are the indexed files in it, in whatever case it
/// is written, whose names match; names with zero characters are left out.
pub proof fn law_matches_in_a_directory(
    index: Map<u64, FileEntry>,
    query: Seq<char>,
    dir: Seq<char>,
    h: u64,
    i: int,
)
    requires
        index.dom().finite(),
        keyed(index),
        plain(dir),
        forall|k: u64| #[trigger] index.contains_key(k) ==> plain(index[k].parent@),
    ensures
        index.contains_key(h) && lowercase(index[h].parent@) == lowercase(dir) && name_matches(
            query,
            index[h].file_name@,
        ) ==> matching_in(index, query, dir).contains(index[h]),
        0 <= i < matching_in(index, query, dir).len() ==> {
            let e = matching_in(index, query, dir)[i];
            indexed(index, e) && lowercase(e.parent@) == lowercase(dir) && name_matches(
                query,
                e.file_name@,
            )
        },
{
    let files = entries_under(LinkKind::Parent, index, dir);
    if index.contains_key(h) && lowercase(index[h].parent@) == lowercase(dir) && name_matches(
        query,
        index[h].file_name@,
    ) {
        law_indexed_file_is_found(LinkKind::Parent, index, h, dir);
        let j = choose|j: int| 0 <= j < files.len() && files[j] == index[h];
        law_no_match_is_left_out(query, files, files.len() as int, j);
    }
    if 0 <= i < matching_in(index, query, dir).len() {
        law_matches_match(query, files, files.len() as int, i);
        let e = matching_in(index, query, dir)[i];
        let j = choose|j: int| 0 <= j < files.len() && files[j] == e;
        law_found_files_are_distinct(LinkKind::Parent, index, dir);
        assert(indexed(index, files[j]));
        let k = choose|k: u64| #[trigger] index.contains_key(k) && index[k] == e;
        law_found_file_has_the_name(LinkKind::Parent, index, dir, j);
    }
}

/// A query that is the name of an indexed file, in whatever case and with white
/// space around it, is answered with that file; a blank one is not the name of
/// any.
pub proof fn law_exact_name_is_found(
    index: Map<u64, FileEntry>,
    h: u64,
    a: Seq<char>,
    name: Seq<char>,
    b: Seq<char>,
)
    requires
        index.dom().finite(),
        forall|i: int| 0 <= i < a.len() ==> is_space(#[trigger] a[i]),
        forall|i: int| 0 <= i < b.len() ==> is_space(#[trigger] b[i]),
        name.len() > 0 ==> !is_space(name[0]) && !is_space(name.last()),
    ensures
        name.len() > 0 && index.contains_key(h) && lowercase(name) == lowercase(
            index[h].file_name@,
        ) ==> named(index, a + name + b).contains(index[h]),
        name.len() == 0 ==> named(index, a + name + b).len() == 0,
{
    law_trim(a, name, b);
    if name.len() > 0 && index.contains_key(h) && lowercase(name) == lowercase(
        index[h].file_name@,
    ) {
        law_indexed_file_is_found(LinkKind::Name, index, h, name);
    }
}

/// A file that is found by its name has that name, up to case; names with zero
/// characters are left out.
pub proof fn law_named_file_has_the_name(
    index: Map<u64, FileEntry>,
    a: Seq<char>,
    name: Seq<char>,
    b: Seq<char>,
    j: int,
)
    requires
        index.dom().finite(),
        forall|i: int| 0 <= i < a.len() ==> is_space(#[trigger] a[i]),
        forall|i: int| 0 <= i < b.len() ==> is_space(#[trigger] b[i]),
        name.len() > 0,
        !is_space(name[0]) && !is_space(name.last()),
        0 <= j < named(index, a + name + b).len(),
        plain(name),
        plain(named(index, a + name + b)[j].file_name@),
    ensures
        lowercase(named(index, a + name + b)[j].file_name@) == lowercase(name),
{
    law_trim(a, name, b);
    law_found_file_has_the_name(LinkKind::Name, index, name, j);
}

/// A name is certain, and a match that no guess led to has no confidence.
pub proof fn law_confidence_of_a_name(v: Seq<FileEntry>, c: u64, i: int)
    requires
        0 <= i < v.len(),
    ensures
        with_confidence(v, c).len() == v.len(),
        with_confidence(v, c)[i] == (v[i], c),
        CERTAIN == 0x3ff0_0000_0000_0000,
        UNKNOWN == 0,
{
}

/// Without guesses the whole index is searched: every indexed file that matches
/// is found, and nothing else, with no confidence.
pub proof fn law_whole_index_is_searched(index: Map<u64, FileEntry>, query: Seq<char>, h: u64, i: int)
    requires
        index.dom().finite(),
        keyed(index),
    ensures
        ({
            let hits = matches_of(index, query, Seq::empty());
            &&& index.contains_key(h) && name_matches(query, index[h].file_name@)
                ==> hits.contains((index[h], 0u64))
            &&& 0 <= i < hits.len() ==> indexed(index, hits[i].0) && name_matches(
                query,
                hits[i].0.file_name@,
            ) && hits[i].1 == 0
        }),
{
    assert(guessed(index, query, Seq::empty(), 0).1 =~= Seq::empty());
    lemma_fallback(index, query, Seq::empty(), h, i);
}

proof fn lemma_fallback(
    index: Map<u64, FileEntry>,
    query: Seq<char>,
    guesses: Seq<(Seq<Seq<char>>, u64)>,
    h: u64,
    i: int,
)
    requires
        index.dom().finite(),
        keyed(index),
        guessed(index, query, guesses, guesses.len() as int).1.len() == 0,
    ensures
        ({
            let hits = matches_of(index, query, guesses);
            &&& index.contains_key(h) && name_matches(query, index[h].file_name@)
                ==> hits.contains((index[h], 0u64))
            &&& 0 <= i < hits.len() ==> indexed(index, hits[i].0) && name_matches(
                query,
                hits[i].0.file_name@,
            ) && hits[i].1 == 0
        }),
{
    let all = all_of(index);
    let hits = matches_of(index, query, guesses);
    let found = matching(query, all, all.len() as int);
    law_all_files_are_distinct(index);
    if index.contains_key(h) && name_matches(query, index[h].file_name@) {
        let j = choose|j: int| 0 <= j < all.len() && all[j] == index[h];
        law_no_match_is_left_out(query, all, all.len() as int, j);
        let k = choose|k: int| 0 <= k < found.len() && found[k] == index[h];
        assert(hits[k] == (index[h], 0u64));
    }
    if 0 <= i < hits.len() {
        law_matches_match(query, all, all.len() as int, i);
        let j = choose|j: int| 0 <= j < all.len() && all[j] == found[i];
        assert(indexed(index, all[j]));
    }
}

proof fn lemma_backtrack_to(
    index: Map<u64, FileEntry>,
    query: Seq<char>,
    chain: Seq<Seq<char>>,
    from: int,
    level: int,
    visited: Set<Seq<char>>,
)
    requires
        0 <= from <= level <= 4,
        level < chain.len(),
        forall|l: int|
            from <= l < level ==> matching_in(index, query, #[trigger] chain[l]).len() == 0,
        forall|l: int| from <= l <= level ==> !visited.contains(lowercase(#[trigger] chain[l])),
        forall|l: int, k: int|
            from <= l < k <= level ==> lowercase(#[trigger] chain[l]) != lowercase(
                #[trigger] chain[k],
            ),
    ensures
        matching_in(index, query, chain[level]).len() > 0 ==> backtrack(
            index,
            query,
            chain,
            from,
            visited,
        ).1 == matching_in(index, query, chain[level]),
        matching_in(index, query, chain[level]).len() == 0 && (level == 4 || level == chain.len()
            - 1) ==> backtrack(index, query, chain, from, visited).1.len() == 0,
    decreases level - from,
{
    let key = lowercase(chain[from]);
    if from < level {
        let more = visited.insert(key);
        assert forall|l: int| from + 1 <= l <= level implies !more.contains(
            lowercase(#[trigger] chain[l]),
        ) by {
            assert(lowercase(chain[from]) != lowercase(chain[l]));
        }
        lemma_backtrack_to(index, query, chain, from + 1, level, more);
    } else {
        assert(!visited.contains(lowercase(chain[from])));
        if matching_in(index, query, chain[level]).len() == 0 && (level == 4 || level == chain.len()
            - 1) {
            assert(backtrack(index, query, chain, from + 1, visited.insert(key)).1.len() == 0);
        }
    }
}

/// A guess leads to the matches in its directory or, where that has none, in
/// the nearest ancestor that has some, at most four levels up, each with the
/// confidence of the guess. Where none of these has any, the whole index is
/// searched.
pub proof fn law_guess_is_followed(
    index: Map<u64, FileEntry>,
    query: Seq<char>,
    chain: Seq<Seq<char>>,
    confidence: u64,
    level: int,
    h: u64,
    i: int,
)
    requires
        index.dom().finite(),
        keyed(index),
        0 <= level <= 4,
        level < chain.len(),
        forall|l: int|
            0 <= l < level ==> matching_in(index, query, #[trigger] chain[l]).len() == 0,
        forall|l: int, k: int|
            0 <= l < k <= level ==> lowercase(#[trigger] chain[l]) != lowercase(
                #[trigger] chain[k],
            ),
    ensures
        ({
            let hits = matches_of(index, query, seq![(chain, confidence)]);
            let found = matching_in(index, query, chain[level]);
            &&& found.len() > 0 ==> hits.len() == found.len() && forall|k: int|
                0 <= k < found.len() ==> #[trigger] hits[k] == (found[k], confidence)
            &&& found.len() == 0 && (level == 4 || level == chain.len() - 1) ==> {
                &&& index.contains_key(h) && name_matches(query, index[h].file_name@)
                    ==> hits.contains((index[h], 0u64))
                &&& 0 <= i < hits.len() ==> hits[i].1 == 0
            }
        }),
{
    let guesses = seq![(chain, confidence)];
    lemma_backtrack_to(index, query, chain, 0, level, Set::empty());
    let none = guessed(index, query, guesses, 0);
    assert(none == (Set::<Seq<char>>::empty(), Seq::<(FileEntry, u64)>::empty()));
    assert(guesses[0] == (chain, confidence));
    let found = backtrack(index, query, chain, 0, Set::empty()).1;
    let one = guessed(index, query, guesses, 1);
    assert(one.1 == Seq::<(FileEntry, u64)>::empty() + with_confidence(found, confidence));
    assert(one.1 =~= with_confidence(found, confidence));
    if found.len() == 0 {
        lemma_fallback(index, query, guesses, h, i);
    }
}

proof fn lemma_backtrack_visits(
    index: Map<u64, FileEntry>,
    query: Seq<char>,
    chain: Seq<Seq<char>>,
    level: int,
    visited: Set<Seq<char>>,
    key: Seq<char>,
)
    requires
        0 <= level,
        !visited.contains(key),
        forall|l: int| level <= l < chain.len() ==> lowercase(#[trigger] chain[l]) != key,
    ensures
        !backtrack(index, query, chain, level, visited).0.contains(key),
    decreases chain.len() - level,
{
    if level < chain.len() {
        assert(lowercase(chain[level]) != key);
        lemma_backtrack_visits(
            index,
            query,
            chain,
            level + 1,
            visited.insert(lowercase(chain[level])),
            key,
        );
    }
}

proof fn lemma_guessed_visits(
    index: Map<u64, FileEntry>,
    query: Seq<char>,
    guesses: Seq<(Seq<Seq<char>>, u64)>,
    n: int,
    key: Seq<char>,
)
    requires
        0 <= n <= guesses.len(),
        forall|g: int, l: int|
            0 <= g < n && 0 <= l < guesses[g].0.len() ==> lowercase(#[trigger] guesses[g].0[l])
                != key,
    ensures
        !guessed(index, query, guesses, n).0.contains(key),
    decreases n,
{
    if n > 0 {
        lemma_guessed_visits(index, query, guesses, n - 1, key);
        let chain = guesses[n - 1].0;
        assert forall|l: int| 0 <= l < chain.len() implies lowercase(#[trigger] chain[l]) != key by {
            assert(guesses[n - 1].0[l] == chain[l]);
        }
        lemma_backtrack_visits(
            index,
            query,
            chain,
            0,
            guessed(index, query, guesses, n - 1).0,
            key,
        );
    }
}

proof fn lemma_guessed_grows(
    index: Map<u64, FileEntry>,
    query: Seq<char>,
    guesses: Seq<(Seq<Seq<char>>, u64)>,
    m: int,
    n: int,
)
    requires
        0 <= m <= n <= guesses.len(),
    ensures
        guessed(index, query, guesses, m).1.is_prefix_of(guessed(index, query, guesses, n).1),
    decreases n,
{
    if m < n {
        lemma_guessed_grows(index, query, guesses, m, n - 1);
    }
}

/// Every match in a guessed directory or, where it has none, in its nearest
/// ancestor up to the fourth that has some, is found with the confidence of its
/// guess, if no earlier guess leads through these directories.
pub proof fn law_every_guess_counts(
    index: Map<u64, FileEntry>,
    query: Seq<char>,
    guesses: Seq<(Seq<Seq<char>>, u64)>,
    g: int,
    level: int,
    i: int,
)
    requires
        0 <= g < guesses.len(),
        0 <= level <= 4,
        level < guesses[g].0.len(),
        0 <= i < matching_in(index, query, guesses[g].0[level]).len(),
        forall|l: int|
            0 <= l < level ==> matching_in(index, query, #[trigger] guesses[g].0[l]).len() == 0,
        forall|l: int, k: int|
            0 <= l < k <= level ==> lowercase(#[trigger] guesses[g].0[l]) != lowercase(
                #[trigger] guesses[g].0[k],
            ),
        forall|a: int, l: int, k: int|
            0 <= a < g && 0 <= l < guesses[a].0.len() && 0 <= k <= level ==> lowercase(
                #[trigger] guesses[a].0[l],
            ) != lowercase(#[trigger] guesses[g].0[k]),
    ensures
        matches_of(index, query, guesses).contains(
            (matching_in(index, query, guesses[g].0[level])[i], guesses[g].1),
        ),
{
    let chain = guesses[g].0;
    let (visited, hits) = guessed(index, query, guesses, g);
    assert forall|k: int| 0 <= k <= level implies !visited.contains(
        lowercase(#[trigger] chain[k]),
    ) by {
        lemma_guessed_visits(index, query, guesses, g, lowercase(chain[k]));
    }
    lemma_backtrack_to(index, query, chain, 0, level, visited);
    let found = backtrack(index, query, chain, 0, visited).1;
    assert(found == matching_in(index, query, chain[level]));
    let after = guessed(index, query, guesses, g + 1).1;
    assert(after == hits + with_confidence(found, guesses[g].1));
    let at = hits.len() + i;
    assert(after[at] == (found[i], guesses[g].1));
    lemma_guessed_grows(index, query, guesses, g + 1, guesses.len() as int);
    assert(matches_of(index, query, guesses)[at] == (found[i], guesses[g].1));
}

proof fn lemma_backtrack_keeps(
    index: Map<u64, FileEntry>,
    query: Seq<char>,
    chain: Seq<Seq<char>>,
    level: int,
    visited: Set<Seq<char>>,
)
    requires
        0 <= level,
    ensures
        visited.subset_of(backtrack(index, query, chain, level, visited).0),
        level < chain.len() && level <= 4 ==> backtrack(index, query, chain, level, visited).0.contains(
            lowercase(chain[level]),
        ),
    decreases chain.len() - level,
{
    if level < chain.len() && level <= 4 && !visited.contains(lowercase(chain[level])) {
        lemma_backtrack_keeps(
            index,
            query,
            chain,
            level + 1,
            visited.insert(lowercase(chain[level])),
        );
    }
}

proof fn lemma_guessed_keeps(
    index: Map<u64, FileEntry>,
    query: Seq<char>,
    guesses: Seq<(Seq<Seq<char>>, u64)>,
    a: int,
    n: int,
)
    requires
        0 <= a < n <= guesses.len(),
        guesses[a].0.len() > 0,
    ensures
        guessed(index, query, guesses, n).0.contains(lowercase(guesses[a].0[0])),
    decreases n,
{
    lemma_backtrack_keeps(
        index,
        query,
        guesses[n - 1].0,
        0,
        guessed(index, query, guesses, n - 1).0,
    );
    if a < n - 1 {
        lemma_guessed_keeps(index, query, guesses, a, n - 1);
    }
}

/// A directory that an earlier guess names is not searched again: a second guess
/// of it, in whatever case, adds nothing.
pub proof fn law_directory_is_searched_once(
    index: Map<u64, FileEntry>,
    query: Seq<char>,
    guesses: Seq<(Seq<Seq<char>>, u64)>,
    a: int,
    g: int,
)
    requires
        0 <= a < g < guesses.len(),
        guesses[a].0.len() > 0,
        guesses[g].0.len() > 0,
        lowercase(guesses[a].0[0]) == lowercase(guesses[g].0[0]),
    ensures
        guessed(index, query, guesses, g + 1).1 == guessed(index, query, guesses, g).1,
{
    lemma_guessed_keeps(index, query, guesses, a, g);
    let (visited, hits) = guessed(index, query, guesses, g);
    let (seen, found) = backtrack(index, query, guesses[g].0, 0, visited);
    assert(found.len() == 0);
    assert(hits + with_confidence(found, guesses[g].1) =~= hits);
}

proof fn lemma_backtrack_matches(
    index: Map<u64, FileEntry>,
    query: Seq<char>,
    chain: Seq<Seq<char>>,
    level: int,
    visited: Set<Seq<char>>,
    i: int,
)
    requires
        0 <= level,
        0 <= i < backtrack(index, query, chain, level, visited).1.len(),
    ensures
        name_matches(query, backtrack(index, query, chain, level, visited).1[i].file_name@),
    decreases chain.len() - level,
{
    let found = matching_in(index, query, chain[level]);
    if found.len() > 0 {
        let files = entries_under(LinkKind::Parent, index, chain[level]);
        law_matches_match(query, files, files.len() as int, i);
    } else {
        lemma_backtrack_matches(
            index,
            query,
            chain,
            level + 1,
            visited.insert(lowercase(chain[level])),
            i,
        );
    }
}

proof fn lemma_guessed_matches(
    index: Map<u64, FileEntry>,
    query: Seq<char>,
    guesses: Seq<(Seq<Seq<char>>, u64)>,
    n: int,
    i: int,
)
    requires
        0 <= n <= guesses.len(),
        0 <= i < guessed(index, query, guesses, n).1.len(),
    ensures
        name_matches(query, guessed(index, query, guesses, n).1[i].0.file_name@),
        exists|g: int|
            0 <= g < n && guessed(index, query, guesses, n).1[i].1 == (#[trigger] guesses[g]).1,
    decreases n,
{
    let (visited, hits) = guessed(index, query, guesses, n - 1);
    if i < hits.len() {
        lemma_guessed_matches(index, query, guesses, n - 1, i);
        let g = choose|g: int| 0 <= g < n - 1 && hits[i].1 == (#[trigger] guesses[g]).1;
        assert(guessed(index, query, guesses, n).1[i] == hits[i]);
        assert(guesses[g].1 == hits[i].1);
    } else {
        lemma_backtrack_matches(index, query, guesses[n - 1].0, 0, visited, i - hits.len());
        assert(guessed(index, query, guesses, n).1[i].1 == guesses[n - 1].1);
    }
}

/// What is found along a chain are the matches of one of its directories, at most
/// four levels up.
proof fn lemma_found_in_the_chain(
    index: Map<u64, FileEntry>,
    query: Seq<char>,
    chain: Seq<Seq<char>>,
    level: int,
    visited: Set<Seq<char>>,
) -> (l: int)
    requires
        0 <= level,
    ensures
        backtrack(index, query, chain, level, visited).1.len() > 0 ==> {
            &&& level <= l <= 4 && l < chain.len()
            &&& backtrack(index, query, chain, level, visited).1 == matching_in(
                index,
                query,
                chain[l],
            )
        },
    decreases chain.len() - level,
{
    if level < chain.len() && level <= 4 && !visited.contains(lowercase(chain[level]))
        && matching_in(index, query, chain[level]).len() == 0 {
        lemma_found_in_the_chain(
            index,
            query,
            chain,
            level + 1,
            visited.insert(lowercase(chain[level])),
        )
    } else {
        level
    }
}

/// A hit that a guess led to is a match in a directory of that guess, at most
/// four levels up, and has its confidence.
pub proof fn law_hit_comes_from_a_guess(
    index: Map<u64, FileEntry>,
    query: Seq<char>,
    guesses: Seq<(Seq<Seq<char>>, u64)>,
    n: int,
    i: int,
) -> (at: (int, int))
    requires
        0 <= n <= guesses.len(),
        0 <= i < guessed(index, query, guesses, n).1.len(),
    ensures
        0 <= at.0 < n,
        0 <= at.1 <= 4 && at.1 < guesses[at.0].0.len(),
        matching_in(index, query, guesses[at.0].0[at.1]).contains(
            guessed(index, query, guesses, n).1[i].0,
        ),
        guessed(index, query, guesses, n).1[i].1 == guesses[at.0].1,
    decreases n,
{
    let (visited, hits) = guessed(index, query, guesses, n - 1);
    let found = backtrack(index, query, guesses[n - 1].0, 0, visited).1;
    let after = guessed(index, query, guesses, n).1;
    if i < hits.len() {
        assert(after[i] == hits[i]);
        law_hit_comes_from_a_guess(index, query, guesses, n - 1, i)
    } else {
        let l = lemma_found_in_the_chain(index, query, guesses[n - 1].0, 0, visited);
        assert(after[i] == (found[i - hits.len()], guesses[n - 1].1));
        (n - 1, l)
    }
}

/// Every hit matches the query, and has the confidence of a guess or none. Where
/// an indexed file matches, there is a hit.
pub proof fn law_hits_match(
    index: Map<u64, FileEntry>,
    query: Seq<char>,
    guesses: Seq<(Seq<Seq<char>>, u64)>,
    h: u64,
    i: int,
)
    requires
        index.dom().finite(),
        keyed(index),
    ensures
        0 <= i < matches_of(index, query, guesses).len() ==> {
            let hit = matches_of(index, query, guesses)[i];
            &&& name_matches(query, hit.0.file_name@)
            &&& hit.1 == 0 || exists|g: int|
                0 <= g < guesses.len() && hit.1 == (#[trigger] guesses[g]).1
        },
        index.contains_key(h) && name_matches(query, index[h].file_name@) ==> matches_of(
            index,
            query,
            guesses,
        ).len() > 0,
{
    let hits = guessed(index, query, guesses, guesses.len() as int).1;
    if hits.len() == 0 {
        lemma_fallback(index, query, guesses, h, i);
    } else if 0 <= i < hits.len() {
        lemma_guessed_matches(index, query, guesses, guesses.len() as int, i);
    }
}

/// The order of scores is that of the doubles that their bit patterns stand for:
/// patterns without a sign rise with the number, a sign turns the order round,
/// and the two zeros are equal.
pub proof fn law_score_order(a: u64, b: u64)
    requires
        a < 0x8000_0000_0000_0000,
        b < 0x8000_0000_0000_0000,
    ensures
        score_order(a) < score_order(b) <==> a < b,
        score_order((a + 0x8000_0000_0000_0000) as u64) == -score_order(a),
        score_order(0) == 0,
{
}

/// A ranking lists every position once, higher keys first, and of equal keys
/// the earlier position.
pub proof fn law_ranking(keys: Seq<i64>, p: Seq<usize>, i: int, j: int, x: usize)
    requires
        is_ranking(keys, p),
        keys.len() <= usize::MAX,
        0 <= i < j < p.len(),
    ensures
        keys[p[i] as int] >= keys[p[j] as int],
        keys[p[i] as int] == keys[p[j] as int] ==> p[i] < p[j],
        p[i] != p[j],
        x < keys.len() ==> p.contains(x),
        p.len() == keys.len(),
{
    assert(ranked_before(keys, p[i], p[j]));
    if x < keys.len() {
        lemma_ranking_covers(keys, p, x);
    }
}

proof fn lemma_deduped_keeps(v: Seq<(Seq<char>, u64)>, n: int, b: int) -> (j: int)
    requires
        0 <= b < n <= v.len(),
        forall|x: int, y: int|
            0 <= x < y < v.len() ==> score_order((#[trigger] v[x]).1) >= score_order(
                (#[trigger] v[y]).1,
            ),
    ensures
        0 <= j < deduped(v, n).len(),
        deduped(v, n)[j].0 == v[b].0,
        score_order(deduped(v, n)[j].1) >= score_order(v[b].1),
        forall|i: int| 0 <= i <= j ==> score_order((#[trigger] deduped(v, n)[i]).1) >= score_order(
            v[b].1,
        ),
    decreases n,
{
    let before = deduped(v, n - 1);
    if b < n - 1 {
        let j = lemma_deduped_keeps(v, n - 1, b);
        assert forall|i: int| 0 <= i <= j implies score_order((#[trigger] deduped(v, n)[i]).1)
            >= score_order(v[b].1) by {
            assert(deduped(v, n)[i] == before[i]);
        }
        j
    } else if n >= 2 && v[n - 1].0 == v[n - 2].0 {
        let j = lemma_deduped_keeps(v, n - 1, n - 2);
        assert(score_order(v[n - 2].1) >= score_order(v[n - 1].1));
        assert forall|i: int| 0 <= i <= j implies score_order((#[trigger] deduped(v, n)[i]).1)
            >= score_order(v[b].1) by {
            assert(deduped(v, n)[i] == before[i]);
        }
        j
    } else {
        let now = deduped(v, n);
        lemma_deduped_from(v, n);
        assert forall|i: int| 0 <= i <= before.len() implies score_order((#[trigger] now[i]).1)
            >= score_order(v[b].1) by {
            let k = choose|k: int| 0 <= k < n && #[trigger] v[k] == now[i];
            if k < b {
                assert(score_order(v[k].1) >= score_order(v[b].1));
            }
        }
        before.len() as int
    }
}

proof fn lemma_deduped_from(v: Seq<(Seq<char>, u64)>, n: int)
    requires
        0 <= n <= v.len(),
    ensures
        forall|i: int|
            0 <= i < deduped(v, n).len() ==> exists|k: int|
                0 <= k < n && #[trigger] v[k] == #[trigger] deduped(v, n)[i],
    decreases n,
{
    if n > 0 {
        lemma_deduped_from(v, n - 1);
        let before = deduped(v, n - 1);
        let now = deduped(v, n);
        assert forall|i: int| 0 <= i < now.len() implies exists|k: int|
            0 <= k < n && #[trigger] v[k] == #[trigger] now[i] by {
            if i < before.len() {
                let k = choose|k: int| 0 <= k < n - 1 && #[trigger] v[k] == before[i];
                assert(v[k] == now[i]);
            } else {
                assert(v[n - 1] == now[i]);
            }
        }
    }
}

/// A path is left out of the ranked results only where there are as many as
/// were asked for, and all of them have at least its score.
pub proof fn law_best_results_are_kept(
    results: Seq<(Seq<char>, u64)>,
    dedup: bool,
    max: usize,
    r: Seq<(Seq<char>, u64)>,
    k: int,
)
    requires
        is_ranked(results, dedup, max, r),
        results.len() <= usize::MAX,
        0 <= k < results.len(),
        forall|i: int| 0 <= i < r.len() ==> (#[trigger] r[i]).0 != results[k].0,
    ensures
        r.len() == max,
        forall|i: int|
            0 <= i < r.len() ==> score_order((#[trigger] r[i]).1) >= score_order(results[k].1),
{
    let keys = score_keys(scores(results));
    let p = choose|p: Seq<usize>| #[trigger]
        is_ranking(keys, p) && r == truncated(
            if dedup {
                deduped(in_order(results, p), p.len() as int)
            } else {
                in_order(results, p)
            },
            max,
        );
    let order = in_order(results, p);
    assert forall|i: int, j: int| 0 <= i < j < order.len() implies score_order(
        (#[trigger] order[i]).1,
    ) >= score_order((#[trigger] order[j]).1) by {
        assert(ranked_before(keys, p[i], p[j]));
    }
    lemma_ranking_covers(keys, p, k as usize);
    let b = choose|b: int| 0 <= b < p.len() && p[b] == k;
    assert(order[b] == results[k]);
    if dedup {
        let d = deduped(order, order.len() as int);
        let j = lemma_deduped_keeps(order, order.len() as int, b);
        if j < r.len() {
            assert(r[j] == d[j]);
        }
        assert forall|i: int| 0 <= i < r.len() implies score_order((#[trigger] r[i]).1)
            >= score_order(results[k].1) by {
            assert(r[i] == d[i]);
        }
    } else {
        if b < r.len() {
            assert(r[b] == order[b]);
        }
        assert forall|i: int| 0 <= i < r.len() implies score_order((#[trigger] r[i]).1)
            >= score_order(results[k].1) by {
            assert(r[i] == order[i]);
        }
    }
}

/// A path that is among the ranked results is there with the best score that it
/// has: duplicates that are left out are no better.
pub proof fn law_path_keeps_its_best_score(
    results: Seq<(Seq<char>, u64)>,
    dedup: bool,
    max: usize,
    r: Seq<(Seq<char>, u64)>,
    i: int,
    k: int,
) -> (j: int)
    requires
        is_ranked(results, dedup, max, r),
        results.len() <= usize::MAX,
        0 <= i < r.len(),
        0 <= k < results.len(),
        results[k].0 == r[i].0,
    ensures
        0 <= j < r.len(),
        r[j].0 == r[i].0,
        score_order(r[j].1) >= score_order(results[k].1) || (r.len() == max && forall|x: int|
            0 <= x < r.len() ==> score_order((#[trigger] r[x]).1) >= score_order(results[k].1)),
{
    let keys = score_keys(scores(results));
    let p = choose|p: Seq<usize>| #[trigger]
        is_ranking(keys, p) && r == truncated(
            if dedup {
                deduped(in_order(results, p), p.len() as int)
            } else {
                in_order(results, p)
            },
            max,
        );
    let order = in_order(results, p);
    assert forall|x: int, y: int| 0 <= x < y < order.len() implies score_order(
        (#[trigger] order[x]).1,
    ) >= score_order((#[trigger] order[y]).1) by {
        assert(ranked_before(keys, p[x], p[y]));
    }
    lemma_ranking_covers(keys, p, k as usize);
    let b = choose|b: int| 0 <= b < p.len() && p[b] == k;
    assert(order[b] == results[k]);
    let all = if dedup {
        deduped(order, order.len() as int)
    } else {
        order
    };
    let j = if dedup {
        lemma_deduped_keeps(order, order.len() as int, b)
    } else {
        b
    };
    assert forall|x: int| 0 <= x <= j implies score_order((#[trigger] all[x]).1) >= score_order(
        results[k].1,
    ) by {}
    if j < r.len() {
        assert(r[j] == all[j]);
        j
    } else {
        assert forall|x: int| 0 <= x < r.len() implies score_order((#[trigger] r[x]).1)
            >= score_order(results[k].1) by {
            assert(r[x] == all[x]);
        }
        i
    }
}

/// Where no result is a duplicate to be left out, a ranking is the results in
/// another order, or the first of them: as many as there are, or as were asked
/// for, each from a place of its own, and of equal scores the earlier first.
pub proof fn law_ranking_reorders_the_results(
    results: Seq<(Seq<char>, u64)>,
    max: usize,
    r: Seq<(Seq<char>, u64)>,
) -> (p: Seq<usize>)
    requires
        is_ranked(results, false, max, r),
        results.len() <= usize::MAX,
    ensures
        r.len() == if results.len() <= max {
            results.len()
        } else {
            max as nat
        },
        r.len() <= p.len(),
        forall|i: int|
            0 <= i < r.len() ==> (#[trigger] p[i]) < results.len() && r[i] == results[p[i] as int],
        forall|i: int, j: int|
            0 <= i < j < r.len() ==> (#[trigger] p[i]) != (#[trigger] p[j]) && score_order(r[i].1)
                >= score_order(r[j].1) && (r[i].1 == r[j].1 ==> p[i] < p[j]),
{
    let keys = score_keys(scores(results));
    let p = choose|p: Seq<usize>| #[trigger]
        is_ranking(keys, p) && r == truncated(in_order(results, p), max);
    let order = in_order(results, p);
    assert forall|i: int| 0 <= i < r.len() implies (#[trigger] p[i]) < results.len() && r[i]
        == results[p[i] as int] by {
        assert(r[i] == order[i]);
    }
    assert forall|i: int, j: int| 0 <= i < j < r.len() implies (#[trigger] p[i]) != (#[trigger] p[j])
        && score_order(r[i].1) >= score_order(r[j].1) && (r[i].1 == r[j].1 ==> p[i] < p[j]) by {
        assert(ranked_before(keys, p[i], p[j]));
        assert(r[i] == order[i] && r[j] == order[j]);
    }
    p
}

proof fn lemma_deduped_neighbours(v: Seq<(Seq<char>, u64)>, n: int)
    requires
        0 <= n <= v.len(),
    ensures
        n > 0 ==> deduped(v, n).len() > 0 && deduped(v, n).last().0 == v[n - 1].0,
        forall|i: int|
            0 <= i < deduped(v, n).len() - 1 ==> (#[trigger] deduped(v, n)[i]).0 != deduped(v, n)[i
                + 1].0,
    decreases n,
{
    if n > 0 {
        lemma_deduped_neighbours(v, n - 1);
        let before = deduped(v, n - 1);
        let now = deduped(v, n);
        assert forall|i: int| 0 <= i < now.len() - 1 implies (#[trigger] now[i]).0 != now[i
            + 1].0 by {
            assert(now[i] == before[i]);
            if i + 1 < before.len() {
                assert(now[i + 1] == before[i + 1]);
            }
        }
    }
}

/// With duplicates left out, no two neighbours have the same path.
pub proof fn law_neighbours_differ(
    results: Seq<(Seq<char>, u64)>,
    max: usize,
    r: Seq<(Seq<char>, u64)>,
    i: int,
)
    requires
        is_ranked(results, true, max, r),
        0 <= i < r.len() - 1,
    ensures
        r[i].0 != r[i + 1].0,
{
    let keys = score_keys(scores(results));
    let p = choose|p: Seq<usize>| #[trigger]
        is_ranking(keys, p) && r == truncated(
            deduped(in_order(results, p), p.len() as int),
            max,
        );
    let order = in_order(results, p);
    lemma_deduped_neighbours(order, order.len() as int);
    let d = deduped(order, order.len() as int);
    assert(r[i] == d[i] && r[i + 1] == d[i + 1]);
}

/// A count goes up by what is added, as long as it can.
pub proof fn law_count_goes_up(counter: u64, n: nat)
    requires
        counter + n <= u64::MAX,
    ensures
        counted(counter, n) == counter + n,
{
}

/// A file after a sequence of opens at these times.
pub open spec fn opened_at(e: FileEntry, times: Seq<i64>) -> FileEntry
    decreases times.len(),
{
    if times.len() == 0 {
        e
    } else {
        opened(opened_at(e, times.drop_last()), times.last())
    }
}

/// Every open counts, whenever the last one was: after `n` opens the frequency
/// is higher by `n`, the last open is the time of the last one, and nothing else
/// has changed.
pub proof fn law_every_open_counts(e: FileEntry, times: Seq<i64>)
    requires
        e.freq + times.len() <= u64::MAX,
    ensures
        ({
            let after = opened_at(e, times);
            &&& after.freq == e.freq + times.len()
            &&& times.len() > 0 ==> after.last_open == times.last()
            &&& times.len() == 0 ==> after.last_open == e.last_open
            &&& after.path == e.path
            &&& after.file_name == e.file_name
            &&& after.extension == e.extension
            &&& after.parent == e.parent
            &&& after.size == e.size
            &&& after.modified == e.modified
            &&& after.depth == e.depth
        }),
    decreases times.len(),
{
    if times.len() > 0 {
        law_every_open_counts(e, times.drop_last());
    }
}

/// An entry that is put in the index is there under its path, in place of the
/// one that it replaces, and no other entry changes.
pub proof fn law_upsert(index: Map<u64, FileEntry>, e: FileEntry, h: u64)
    ensures
        upserted(index, e).contains_key(path_key(e.path@)),
        upserted(index, e)[path_key(e.path@)] == e,
        h != path_key(e.path@) ==> upserted(index, e).contains_key(h) == index.contains_key(h)
            && upserted(index, e)[h] == index[h],
{
}

/// Indexing a file keeps how often and when it was opened, if it was known, and
/// takes everything else from what was found.
pub proof fn law_indexing_takes_the_rest(index: Map<u64, FileEntry>, e: FileEntry)
    ensures
        ({
            let x = with_stats(index, e);
            let h = path_key(e.path@);
            &&& index.contains_key(h) ==> x.freq == index[h].freq && x.last_open == index[h].last_open
            &&& !index.contains_key(h) ==> x == e
            &&& x.path == e.path
            &&& x.file_name == e.file_name
            &&& x.extension == e.extension
            &&& x.parent == e.parent
            &&& x.size == e.size
            &&& x.modified == e.modified
            &&& x.depth == e.depth
        }),
{
}

} // verus!
