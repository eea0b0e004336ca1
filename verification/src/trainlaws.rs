//! What holds of preparing a training run and of the guesses of a model.

use vstd::prelude::*;

use crate::classifier::{
    at_least, best_guesses, common_parents, count_key, count_keys, counts_terms, describes,
    doc_freq, doc_tallies, documents, is_training_sample, is_vocabulary, labelled, largest_keys,
    most_frequent, occurrences, parents, prepared, score_keys, tallies, tokens, Training,

};
use crate::order::OrderedKey;
use crate::rank::{is_ranking, lemma_ranking_covers, ranked_before, score_order};
use crate::sorted::{
    ascending, entries_of, lemma_finite_map_has_entries, lemma_map_of_entry, lemma_map_of_key,
    map_of,
};
use crate::store::FileEntry;

verus! {

/// The files of a training run are all those whose parent directory is one of
/// the classes, each once and in order.
pub proof fn law_every_labelled_file_is_used(
    entries: Seq<FileEntry>,
    classes: Seq<Seq<char>>,
    n: int,
    i: int,
)
    requires
        0 <= n <= entries.len() <= usize::MAX,
        0 <= i < entries.len(),
    ensures
        labelled(entries, classes, n).contains(i as usize) <==> i < n && classes.contains(
            entries[i].parent@,
        ),
        forall|a: int, b: int|
            0 <= a < b < labelled(entries, classes, n).len() ==> #[trigger] labelled(
                entries,
                classes,
                n,
            )[a] < #[trigger] labelled(entries, classes, n)[b],
        forall|a: int|
            0 <= a < labelled(entries, classes, n).len() ==> #[trigger] labelled(
                entries,
                classes,
                n,
            )[a] < n,
    decreases n,
{
    let now = labelled(entries, classes, n);
    if n > 0 {
        law_every_labelled_file_is_used(entries, classes, n - 1, i);
        let before = labelled(entries, classes, n - 1);
        if classes.contains(entries[n - 1].parent@) {
            assert(now[before.len() as int] == n - 1);
            if before.contains(i as usize) {
                let k = choose|k: int| 0 <= k < before.len() && before[k] == i as usize;
                assert(now[k] == i as usize);
            }
            if now.contains(i as usize) && i != n - 1 {
                let k = choose|k: int| 0 <= k < now.len() && now[k] == i as usize;
                assert(before[k] == i as usize);
            }
            assert forall|a: int| 0 <= a < now.len() implies #[trigger] now[a] < n by {
                if a < before.len() {
                    assert(now[a] == before[a]);
                }
            }
            assert forall|a: int, b: int| 0 <= a < b < now.len() implies #[trigger] now[a]
                < #[trigger] now[b] by {
                assert(now[a] == before[a]);
                if b < before.len() {
                    assert(now[b] == before[b]);
                }
            }
        }
    }
}

/// Occurrences are counted one by one: those in two lists add up, a text occurs
/// once in the list of it alone, and not in that of another one.
pub proof fn law_occurrences_add_up(a: Seq<Seq<char>>, b: Seq<Seq<char>>, t: Seq<char>, u: Seq<char>)
    ensures
        occurrences(a + b, t, (a + b).len() as int) == occurrences(a, t, a.len() as int)
            + occurrences(b, t, b.len() as int),
        occurrences(seq![t], t, 1) == 1,
        u != t ==> occurrences(seq![u], t, 1) == 0,
        occurrences(Seq::empty(), t, 0) == 0,
{
    lemma_occurrences_append(a, b, t, (a + b).len() as int);
    assert(occurrences(seq![t], t, 0) == 0);
    assert(occurrences(seq![u], t, 0) == 0);
}

proof fn lemma_occurrences_append(a: Seq<Seq<char>>, b: Seq<Seq<char>>, t: Seq<char>, n: int)
    requires
        0 <= n <= a.len() + b.len(),
    ensures
        occurrences(a + b, t, n) == if n <= a.len() {
            occurrences(a, t, n)
        } else {
            occurrences(a, t, a.len() as int) + occurrences(b, t, n - a.len())
        },
    decreases n,
{
    if n > 0 {
        lemma_occurrences_append(a, b, t, n - 1);
        assert((a + b)[n - 1] == if n <= a.len() {
            a[n - 1]
        } else {
            b[n - 1 - a.len()]
        });
        assert(occurrences(b, t, 0) == 0);
    }
}

/// Documents are counted one by one, each once if it has the term.
pub proof fn law_document_counts_add_up(
    a: Seq<Seq<Seq<char>>>,
    b: Seq<Seq<Seq<char>>>,
    doc: Seq<Seq<char>>,
    t: Seq<char>,
)
    ensures
        doc_freq(a + b, t, (a + b).len() as int) == doc_freq(a, t, a.len() as int) + doc_freq(
            b,
            t,
            b.len() as int,
        ),
        doc_freq(seq![doc], t, 1) == if doc.contains(t) {
            1nat
        } else {
            0nat
        },
        doc_freq(Seq::empty(), t, 0) == 0,
{
    lemma_doc_freq_append(a, b, t, (a + b).len() as int);
    assert(doc_freq(seq![doc], t, 0) == 0);
    assert(seq![doc][0] == doc);
}

proof fn lemma_doc_freq_append(
    a: Seq<Seq<Seq<char>>>,
    b: Seq<Seq<Seq<char>>>,
    t: Seq<char>,
    n: int,
)
    requires
        0 <= n <= a.len() + b.len(),
    ensures
        doc_freq(a + b, t, n) == if n <= a.len() {
            doc_freq(a, t, n)
        } else {
            doc_freq(a, t, a.len() as int) + doc_freq(b, t, n - a.len())
        },
    decreases n,
{
    if n > 0 {
        lemma_doc_freq_append(a, b, t, n - 1);
        assert((a + b)[n - 1] == if n <= a.len() {
            a[n - 1]
        } else {
            b[n - 1 - a.len()]
        });
        assert(doc_freq(b, t, 0) == 0);
    }
}

proof fn lemma_at_least(m: Seq<(Seq<char>, usize)>, least: usize, n: int)
    requires
        0 <= n <= m.len(),
    ensures
        forall|i: int|
            0 <= i < n && (#[trigger] m[i]).1 >= least ==> at_least(m, least, n).contains(m[i]),
        forall|j: int|
            0 <= j < at_least(m, least, n).len() ==> (#[trigger] at_least(m, least, n)[j]).1 >= least
                && exists|i: int| 0 <= i < n && #[trigger] m[i] == at_least(m, least, n)[j],
        ascending::<String, usize>(m) ==> forall|a: int, b: int|
            0 <= a < b < at_least(m, least, n).len() ==> (#[trigger] at_least(m, least, n)[a]).0
                != (#[trigger] at_least(m, least, n)[b]).0,
    decreases n,
{
    let now = at_least(m, least, n);
    if n > 0 {
        lemma_at_least(m, least, n - 1);
        let before = at_least(m, least, n - 1);
        assert forall|i: int| 0 <= i < n && (#[trigger] m[i]).1 >= least implies now.contains(
            m[i],
        ) by {
            if i < n - 1 {
                let k = choose|k: int| 0 <= k < before.len() && before[k] == m[i];
                assert(now[k] == m[i]);
            } else {
                assert(now[now.len() - 1] == m[i]);
            }
        }
        assert forall|j: int| 0 <= j < now.len() implies (#[trigger] now[j]).1 >= least && exists|
            i: int,
        |
            0 <= i < n && #[trigger] m[i] == now[j] by {
            if j < before.len() {
                assert(now[j] == before[j]);
                let i = choose|i: int| 0 <= i < n - 1 && #[trigger] m[i] == before[j];
                assert(m[i] == now[j]);
            } else {
                assert(m[n - 1] == now[j]);
            }
        }
        if ascending::<String, usize>(m) {
            assert forall|a: int, b: int| 0 <= a < b < now.len() implies (#[trigger] now[a]).0 != (
            #[trigger] now[b]).0 by {
                assert(now[a] == before[a]);
                if b < before.len() {
                    assert(now[b] == before[b]);
                } else {
                    let i = choose|i: int| 0 <= i < n - 1 && #[trigger] m[i] == before[a];
                    assert(String::before(m[i].0, m[n - 1].0));
                    if now[a].0 == now[b].0 {
                        String::irreflexive(now[a].0);
                    }
                }
            }
        }
    }
}

proof fn lemma_most_frequent(
    all: Seq<(Seq<char>, usize)>,
    max: usize,
    top: Seq<(Seq<char>, usize)>,
    x: int,
)
    requires
        most_frequent(all, max, top),
        all.len() <= usize::MAX,
        forall|i: int| 0 <= i < all.len() ==> (#[trigger] all[i]).1 <= i64::MAX,
        0 <= x < all.len() ==> !top.contains(all[x]),
    ensures
        top.len() <= max,
        forall|i: int| 0 <= i < top.len() ==> all.contains(#[trigger] top[i]),
        forall|i: int, j: int|
            0 <= i < j < top.len() ==> (#[trigger] top[i]).1 >= (#[trigger] top[j]).1,
        0 <= x < all.len() ==> top.len() == max && forall|i: int|
            0 <= i < top.len() ==> (#[trigger] top[i]).1 >= all[x].1,
        (forall|a: int, b: int|
            0 <= a < b < all.len() ==> (#[trigger] all[a]).0 != (#[trigger] all[b]).0) ==> forall|
            i: int,
            j: int,
        |
            0 <= i < j < top.len() ==> (#[trigger] top[i]).0 != (#[trigger] top[j]).0,
{
    let keys = count_keys(all);
    let p = choose|p: Seq<usize>| #[trigger]
        is_ranking(keys, p) && forall|i: int|
            0 <= i < top.len() ==> #[trigger] top[i] == all[p[i] as int];
    assert forall|i: int, j: int| 0 <= i < j < top.len() implies (#[trigger] top[i]).1 >= (
    #[trigger] top[j]).1 by {
        assert(ranked_before(keys, p[i], p[j]));
        assert(count_key(all[p[i] as int].1) >= count_key(all[p[j] as int].1));
    }
    assert forall|i: int| 0 <= i < top.len() implies all.contains(#[trigger] top[i]) by {
        assert(all[p[i] as int] == top[i]);
    }
    if 0 <= x < all.len() {
        lemma_ranking_covers(keys, p, x as usize);
        let b = choose|b: int| 0 <= b < p.len() && p[b] == x;
        if b < top.len() {
            assert(top[b] == all[x]);
        }
        assert forall|i: int| 0 <= i < top.len() implies (#[trigger] top[i]).1 >= all[x].1 by {
            assert(ranked_before(keys, p[i], p[b]));
            assert(count_key(all[p[i] as int].1) >= count_key(all[x].1));
        }
    }
    if forall|a: int, b: int|
        0 <= a < b < all.len() ==> (#[trigger] all[a]).0 != (#[trigger] all[b]).0 {
        assert forall|i: int, j: int| 0 <= i < j < top.len() implies (#[trigger] top[i]).0 != (
        #[trigger] top[j]).0 by {
            assert(ranked_before(keys, p[i], p[j]));
            let (a, b) = (p[i] as int, p[j] as int);
            if a < b {
                assert(all[a].0 != all[b].0);
            } else {
                assert(all[b].0 != all[a].0);
            }
        }
    }
}

proof fn lemma_occurrence_is_there(s: Seq<Seq<char>>, t: Seq<char>, n: int)
    requires
        0 <= n <= s.len(),
    ensures
        occurrences(s, t, n) <= n,
        occurrences(s, t, n) > 0 ==> s.contains(t),
        forall|i: int| 0 <= i < n && #[trigger] s[i] == t ==> occurrences(s, t, n) > 0,
    decreases n,
{
    if n > 0 {
        lemma_occurrence_is_there(s, t, n - 1);
        assert(s.contains(s[n - 1]));
    }
}

/// The classes of a training run are the parent directories with the most
/// files: at most forty, each with the number of its files, the fullest first.
/// A directory is left out only where there are forty with at least as many.
pub proof fn law_classes_are_the_fullest_directories(
    entries: Seq<FileEntry>,
    v: Seq<(Seq<char>, usize)>,
    dir: Seq<char>,
)
    requires
        common_parents(entries, v),
        entries.len() <= i64::MAX,
        entries.len() <= usize::MAX,
    ensures
        v.len() <= 40,
        forall|i: int|
            0 <= i < v.len() ==> (#[trigger] v[i]).1 == occurrences(
                parents(entries),
                v[i].0,
                entries.len() as int,
            ) && v[i].1 > 0,
        forall|i: int, j: int|
            0 <= i < j < v.len() ==> (#[trigger] v[i]).1 >= (#[trigger] v[j]).1 && v[i].0 != v[j].0,
        parents(entries).contains(dir) && (forall|i: int|
            0 <= i < v.len() ==> (#[trigger] v[i]).0 != dir) ==> v.len() == 40 && forall|i: int|
            0 <= i < v.len() ==> (#[trigger] v[i]).1 >= occurrences(
                parents(entries),
                dir,
                entries.len() as int,
            ),
{
    let s = parents(entries);
    let n = entries.len() as int;
    let m = choose|m: Map<Seq<char>, usize>| #[trigger]
        tallies(m, s, n) && most_frequent(
            at_least(
                entries_of::<String, usize>(m),
                0,
                entries_of::<String, usize>(m).len() as int,
            ),
            crate::classifier::MAX_CLASSES,
            v,
        );
    assert(m.dom().finite() && m.dom().len() <= s.len()) by {
        vstd::seq_lib::seq_to_set_is_finite(s);
        assert forall|t: Seq<char>| m.dom().contains(t) implies s.to_set().contains(t) by {
            assert(m.contains_key(t));
            lemma_occurrence_is_there(s, t, n);
        }
        vstd::set_lib::lemma_set_subset_finite(s.to_set(), m.dom());
        vstd::set_lib::lemma_len_subset(m.dom(), s.to_set());
        s.lemma_cardinality_of_set();
    }
    assert forall|t: Seq<char>| #[trigger] m.contains_key(t) implies m[t] <= n by {
        lemma_occurrence_is_there(s, t, n);
    }
    let x = lemma_top(m, 0, crate::classifier::MAX_CLASSES, v, dir);
    assert forall|i: int| 0 <= i < v.len() implies (#[trigger] v[i]).1 == occurrences(
        s,
        v[i].0,
        n,
    ) && v[i].1 > 0 by {
        assert(m.contains_key(v[i].0));
        assert(occurrences(s, v[i].0, n) > 0);
    }
    if s.contains(dir) {
        let k = choose|k: int| 0 <= k < s.len() && s[k] == dir;
        lemma_occurrence_is_there(s, dir, n);
        assert(occurrences(s, dir, n) > 0);
        assert(m.contains_key(dir));
    }
}

proof fn lemma_top(
    m: Map<Seq<char>, usize>,
    least: usize,
    max: usize,
    v: Seq<(Seq<char>, usize)>,
    t: Seq<char>,
) -> (done: bool)
    requires
        m.dom().finite(),
        m.dom().len() <= usize::MAX,
        forall|k: Seq<char>| #[trigger] m.contains_key(k) ==> m[k] <= i64::MAX,
        most_frequent(
            at_least(
                entries_of::<String, usize>(m),
                least,
                entries_of::<String, usize>(m).len() as int,
            ),
            max,
            v,
        ),
    ensures
        v.len() <= max,
        forall|i: int|
            0 <= i < v.len() ==> m.contains_key((#[trigger] v[i]).0) && m[v[i].0] == v[i].1
                && v[i].1 >= least,
        forall|i: int, j: int|
            0 <= i < j < v.len() ==> (#[trigger] v[i]).1 >= (#[trigger] v[j]).1 && v[i].0 != v[j].0,
        m.contains_key(t) && m[t] >= least && (forall|i: int|
            0 <= i < v.len() ==> (#[trigger] v[i]).0 != t) ==> v.len() == max && forall|i: int|
            0 <= i < v.len() ==> (#[trigger] v[i]).1 >= m[t],
{
    lemma_finite_map_has_entries::<String, usize>(m);
    let es = entries_of::<String, usize>(m);
    let all = at_least(es, least, es.len() as int);
    lemma_at_least(es, least, es.len() as int);
    lemma_entries_no_longer(m, es);
    lemma_at_least_len(es, least, es.len() as int);
    assert forall|i: int| 0 <= i < all.len() implies (#[trigger] all[i]).1 <= i64::MAX
        && m.contains_key(all[i].0) && m[all[i].0] == all[i].1 by {
        let k = choose|k: int| 0 <= k < es.len() && #[trigger] es[k] == all[i];
        lemma_map_of_entry::<String, usize>(es, k);
        assert(m.contains_key(es[k].0));
    }
    lemma_most_frequent(all, max, v, -1);
    assert forall|i: int| 0 <= i < v.len() implies m.contains_key((#[trigger] v[i]).0)
        && m[v[i].0] == v[i].1 && v[i].1 >= least by {
        assert(all.contains(v[i]));
        let k = choose|k: int| 0 <= k < all.len() && all[k] == v[i];
        assert(all[k].1 >= least);
    }
    if m.contains_key(t) && m[t] >= least && (forall|i: int|
        0 <= i < v.len() ==> (#[trigger] v[i]).0 != t) {
        let k = lemma_map_of_key(es, t);
        lemma_map_of_entry::<String, usize>(es, k);
        assert(all.contains(es[k]));
        let x = choose|x: int| 0 <= x < all.len() && all[x] == es[k];
        if v.contains(all[x]) {
            let i = choose|i: int| 0 <= i < v.len() && v[i] == all[x];
            assert(v[i].0 == t);
        }
        lemma_most_frequent(all, max, v, x);
    }
    true
}

proof fn lemma_at_least_len(m: Seq<(Seq<char>, usize)>, least: usize, n: int)
    requires
        0 <= n <= m.len(),
    ensures
        at_least(m, least, n).len() <= n,
    decreases n,
{
    if n > 0 {
        lemma_at_least_len(m, least, n - 1);
    }
}

proof fn lemma_entries_no_longer(m: Map<Seq<char>, usize>, es: Seq<(Seq<char>, usize)>)
    requires
        m.dom().finite(),
        ascending::<String, usize>(es),
        map_of(es) == m,
    ensures
        es.len() <= m.dom().len(),
{
    let keys = Seq::new(es.len(), |i: int| es[i].0);
    assert(keys.no_duplicates()) by {
        assert forall|i: int, j: int| 0 <= i < keys.len() && 0 <= j < keys.len() && i != j implies
            keys[i] != keys[j] by {
            if i < j {
                assert(String::before(es[i].0, es[j].0));
            } else {
                assert(String::before(es[j].0, es[i].0));
            }
            if keys[i] == keys[j] {
                String::irreflexive(keys[i]);
            }
        }
    }
    keys.unique_seq_to_set();
    assert forall|k: Seq<char>| keys.to_set().contains(k) implies m.dom().contains(k) by {
        let i = choose|i: int| 0 <= i < keys.len() && keys[i] == k;
        lemma_map_of_entry::<String, usize>(es, i);
    }
    vstd::set_lib::lemma_len_subset(keys.to_set(), m.dom());
}

/// All word pieces of the documents, one document behind the other.
pub open spec fn all_words(docs: Seq<Seq<Seq<char>>>) -> Seq<Seq<char>>
    decreases docs.len(),
{
    if docs.len() == 0 {
        Seq::empty()
    } else {
        all_words(docs.drop_last()) + docs.last()
    }
}

proof fn lemma_word_is_there(docs: Seq<Seq<Seq<char>>>, t: Seq<char>, n: int)
    requires
        0 <= n <= docs.len(),
    ensures
        doc_freq(docs, t, n) <= n,
        doc_freq(docs, t, n) > 0 ==> all_words(docs.take(n)).contains(t),
    decreases n,
{
    if n > 0 {
        lemma_word_is_there(docs, t, n - 1);
        let before = all_words(docs.take(n - 1));
        let now = all_words(docs.take(n));
        assert(docs.take(n).drop_last() =~= docs.take(n - 1));
        assert(now == before + docs[n - 1]);
        let doc = docs[n - 1];
        if doc.contains(t) {
            let i = choose|i: int| 0 <= i < doc.len() && doc[i] == t;
            assert(now[before.len() + i] == t);
        } else if doc_freq(docs, t, n) > 0 {
            let i = choose|i: int| 0 <= i < before.len() && before[i] == t;
            assert(now[i] == t);
        }
    }
}

/// The vocabulary of a training run are the terms that occur in the most
/// documents: at most four hundred, each in at least two, with the number of its
/// documents. A term of two documents is left out only where there are four
/// hundred that occur in at least as many.
pub proof fn law_vocabulary_is_shared(
    docs: Seq<Seq<Seq<char>>>,
    v: Seq<(Seq<char>, usize)>,
    t: Seq<char>,
)
    requires
        is_vocabulary(docs, v),
        docs.len() <= i64::MAX,
        all_words(docs).len() <= usize::MAX,
    ensures
        v.len() <= 400,
        forall|i: int|
            0 <= i < v.len() ==> (#[trigger] v[i]).1 == doc_freq(docs, v[i].0, docs.len() as int)
                && v[i].1 >= 2,
        forall|i: int, j: int|
            0 <= i < j < v.len() ==> (#[trigger] v[i]).1 >= (#[trigger] v[j]).1 && v[i].0 != v[j].0,
        doc_freq(docs, t, docs.len() as int) >= 2 && (forall|i: int|
            0 <= i < v.len() ==> (#[trigger] v[i]).0 != t) ==> v.len() == 400 && forall|i: int|
            0 <= i < v.len() ==> (#[trigger] v[i]).1 >= doc_freq(docs, t, docs.len() as int),
{
    let n = docs.len() as int;
    let words = all_words(docs);
    assert(docs.take(n) =~= docs);
    let m = choose|m: Map<Seq<char>, usize>| #[trigger]
        doc_tallies(m, docs, n) && most_frequent(
            at_least(
                entries_of::<String, usize>(m),
                2,
                entries_of::<String, usize>(m).len() as int,
            ),
            crate::classifier::MAX_VOCAB,
            v,
        );
    assert(m.dom().finite() && m.dom().len() <= words.len()) by {
        vstd::seq_lib::seq_to_set_is_finite(words);
        assert forall|k: Seq<char>| m.dom().contains(k) implies words.to_set().contains(k) by {
            assert(m.contains_key(k));
            lemma_word_is_there(docs, k, n);
        }
        vstd::set_lib::lemma_set_subset_finite(words.to_set(), m.dom());
        vstd::set_lib::lemma_len_subset(m.dom(), words.to_set());
        words.lemma_cardinality_of_set();
    }
    assert forall|k: Seq<char>| #[trigger] m.contains_key(k) implies m[k] <= n by {
        lemma_word_is_there(docs, k, n);
    }
    let done = lemma_top(m, 2, crate::classifier::MAX_VOCAB, v, t);
    assert forall|i: int| 0 <= i < v.len() implies (#[trigger] v[i]).1 == doc_freq(
        docs,
        v[i].0,
        n,
    ) && v[i].1 >= 2 by {
        assert(m.contains_key(v[i].0));
    }
    if doc_freq(docs, t, n) >= 2 {
        assert(m.contains_key(t));
    }
}

/// The counts of a document say of every term how often it occurs.
pub proof fn law_terms_are_counted(
    counts: Seq<usize>,
    terms: Seq<Seq<char>>,
    doc: Seq<Seq<char>>,
    j: int,
)
    requires
        counts_terms(counts, terms, doc, doc.len() as int),
        0 <= j < terms.len(),
    ensures
        counts.len() == terms.len(),
        counts[j] == occurrences(doc, terms[j], doc.len() as int),
        counts[j] > 0 <==> doc.contains(terms[j]),
{
    let n = doc.len() as int;
    lemma_occurrence_is_there(doc, terms[j], n);
    if doc.contains(terms[j]) {
        let i = choose|i: int| 0 <= i < doc.len() && doc[i] == terms[j];
        assert(doc[i] == terms[j]);
    }
}

/// The document of a file are the word pieces of its path.
pub proof fn law_documents_are_paths(entries: Seq<FileEntry>, picked: Seq<usize>, i: int)
    requires
        0 <= i < picked.len(),
    ensures
        documents(entries, picked).len() == picked.len(),
        documents(entries, picked)[i] == tokens(entries[picked[i] as int].path@),
{
}

/// There is something to learn exactly if there are files, at least two classes,
/// and a term that occurs in two of the files. What is learned from has a row
/// for each file, with how often each term occurs in its path, and its class is
/// its parent directory.
pub proof fn law_training_set(
    entries: Seq<FileEntry>,
    classes: Seq<Seq<char>>,
    picked: Seq<usize>,
    last: u64,
    r: Option<Training>,
    t: Seq<char>,
    i: int,
    j: int,
)
    requires
        prepared(entries, classes, picked, last, r),
        picked.len() <= i64::MAX,
        all_words(documents(entries, picked)).len() <= usize::MAX,
    ensures
        picked.len() > 0 && classes.len() >= 2 && doc_freq(
            documents(entries, picked),
            t,
            picked.len() as int,
        ) >= 2 ==> r is Some,
        r is Some ==> picked.len() > 0 && classes.len() >= 2 && r.unwrap().classifier@.terms.len()
            > 0,
        r is Some ==> r.unwrap().classifier@.classes == classes && r.unwrap().classifier@.updates
            == 0 && (last < u64::MAX ==> r.unwrap().classifier@.version == last + 1),
        r is Some ==> r.unwrap().rows@.len() == picked.len(),
        r is Some && 0 <= j < r.unwrap().classifier@.terms.len() ==> {
            let term = r.unwrap().classifier@.terms[j];
            &&& r.unwrap().doc_freqs@.len() == r.unwrap().classifier@.terms.len()
            &&& r.unwrap().doc_freqs@[j] == doc_freq(
                documents(entries, picked),
                term,
                picked.len() as int,
            )
            &&& r.unwrap().doc_freqs@[j] >= 2
        },
        r is Some && 0 <= i < picked.len() ==> {
            let row = r.unwrap().rows@[i];
            let e = entries[picked[i] as int];
            &&& row.class < classes.len() && classes[row.class as int] == e.parent@
            &&& row.len == tokens(e.path@).len()
            &&& row.counts@.len() == r.unwrap().classifier@.terms.len()
            &&& 0 <= j < row.counts@.len() ==> row.counts@[j] == occurrences(
                tokens(e.path@),
                r.unwrap().classifier@.terms[j],
                tokens(e.path@).len() as int,
            )
        },
{
    let docs = documents(entries, picked);
    let v = choose|v: Seq<(Seq<char>, usize)>| #[trigger]
        is_vocabulary(docs, v) && match r {
            None => picked.len() == 0 || classes.len() < 2 || v.len() == 0,
            Some(x) => {
                &&& picked.len() > 0 && classes.len() >= 2 && v.len() > 0
                &&& x.classifier.wf()
                &&& x.classifier@.classes == classes
                &&& x.classifier@.updates == 0
                &&& x.classifier@.version == crate::cache::counted(last, 1)
                &&& x.classifier@.terms == Seq::new(v.len(), |j: int| v[j].0)
                &&& x.doc_freqs@ == Seq::new(v.len(), |j: int| v[j].1)
                &&& x.rows@.len() == picked.len()
                &&& forall|i: int|
                    0 <= i < picked.len() ==> describes(
                        #[trigger] x.rows@[i],
                        x.classifier@.terms,
                        classes,
                        entries[picked[i] as int],
                    )
            },
        };
    law_vocabulary_is_shared(docs, v, t);
    if let Some(x) = r {
        if 0 <= i < picked.len() {
            assert(describes(
                x.rows@[i],
                x.classifier@.terms,
                classes,
                entries[picked[i] as int],
            ));
        }
        if 0 <= j < v.len() {
            assert(v[j].1 >= 2);
        }
    }
}

/// The guesses are the classes with the highest scores: three of them, or all
/// where there are fewer, each class at most once, the highest first. A class is
/// left out only where there are three with at least its score.
pub proof fn law_guesses_are_the_best(
    classes: Seq<Seq<char>>,
    probs: Seq<u64>,
    v: Seq<(Seq<char>, u64)>,
    x: int,
) -> (p: Seq<usize>)
    requires
        best_guesses(classes, probs, v),
        classes.len() == probs.len(),
        classes.len() <= usize::MAX,
        0 <= x < classes.len(),
    ensures
        v.len() == if classes.len() <= 3 {
            classes.len()
        } else {
            3
        },
        v.len() <= p.len(),
        forall|i: int|
            0 <= i < v.len() ==> (#[trigger] p[i]) < classes.len() && v[i] == (
                classes[p[i] as int],
                probs[p[i] as int],
            ),
        forall|i: int, j: int|
            0 <= i < j < v.len() ==> (#[trigger] p[i]) != (#[trigger] p[j]) && score_order(v[i].1)
                >= score_order(v[j].1),
        (forall|i: int| 0 <= i < v.len() ==> (#[trigger] p[i]) != x) ==> v.len() == 3 && forall|i: int|
            0 <= i < v.len() ==> score_order((#[trigger] v[i]).1) >= score_order(probs[x]),
{
    let keys = score_keys(probs);
    let p = choose|p: Seq<usize>| #[trigger]
        is_ranking(keys, p) && forall|i: int|
            0 <= i < v.len() ==> #[trigger] v[i] == (classes[p[i] as int], probs[p[i] as int]);
    assert forall|i: int, j: int| 0 <= i < j < v.len() implies (#[trigger] p[i]) != (#[trigger] p[j])
        && score_order(v[i].1) >= score_order(v[j].1) by {
        assert(ranked_before(keys, p[i], p[j]));
        assert(v[i].1 == probs[p[i] as int] && v[j].1 == probs[p[j] as int]);
    }
    lemma_ranking_covers(keys, p, x as usize);
    let b = choose|b: int| 0 <= b < p.len() && p[b] == x;
    if forall|i: int| 0 <= i < v.len() ==> (#[trigger] p[i]) != x {
        if b < v.len() {
            assert(p[b] != x);
        }
        assert forall|i: int| 0 <= i < v.len() implies score_order((#[trigger] v[i]).1)
            >= score_order(probs[x]) by {
            assert(ranked_before(keys, p[i], p[b]));
        }
    }
    p
}

/// A training run uses all of its files where they are at most six thousand;
/// else it uses six thousand of them, each once, and one is left out only where
/// its key is no higher than those of all that are used.
pub proof fn law_sample_is_the_highest(
    training: Seq<usize>,
    keys: Seq<u64>,
    r: Seq<usize>,
    x: int,
) -> (at: Seq<usize>)
    requires
        is_training_sample(training, keys, r),
        keys.len() == training.len(),
        training.len() <= usize::MAX,
        0 <= x < training.len(),
    ensures
        training.len() <= 6000 ==> r == training,
        training.len() > 6000 ==> {
            &&& r.len() == 6000
            &&& at.len() == 6000
            &&& forall|i: int|
                0 <= i < 6000 ==> (#[trigger] at[i]) < training.len() && r[i]
                    == training[at[i] as int]
            &&& forall|i: int, j: int|
                0 <= i < j < 6000 ==> (#[trigger] at[i]) != (#[trigger] at[j])
            &&& (forall|i: int| 0 <= i < 6000 ==> (#[trigger] at[i]) != x) ==> forall|i: int|
                0 <= i < 6000 ==> score_order(keys[(#[trigger] at[i]) as int]) >= score_order(
                    keys[x],
                )
        },
{
    if training.len() > 6000 {
        let v = choose|v: Seq<usize>| #[trigger]
            largest_keys(keys, crate::classifier::MAX_SAMPLES, v) && r == v.map_values(
                |i: usize| training[i as int],
            );
        let p = choose|p: Seq<usize>| #[trigger]
            is_ranking(score_keys(keys), p) && v == p.take(v.len() as int);
        assert forall|i: int| 0 <= i < 6000 implies (#[trigger] v[i]) < training.len() && r[i]
            == training[v[i] as int] by {
            assert(v[i] == p[i]);
        }
        assert forall|i: int, j: int| 0 <= i < j < 6000 implies (#[trigger] v[i]) != (
        #[trigger] v[j]) by {
            assert(ranked_before(score_keys(keys), p[i], p[j]));
        }
        lemma_ranking_covers(score_keys(keys), p, x as usize);
        let b = choose|b: int| 0 <= b < p.len() && p[b] == x;
        if forall|i: int| 0 <= i < 6000 ==> (#[trigger] v[i]) != x {
            if b < 6000 {
                assert(v[b] == p[b]);
            }
            assert forall|i: int| 0 <= i < 6000 implies score_order(
                keys[(#[trigger] v[i]) as int],
            ) >= score_order(keys[x]) by {
                assert(ranked_before(score_keys(keys), p[i], p[b]));
                assert(v[i] == p[i]);
            }
        }
        v
    } else {
        Seq::empty()
    }
}

} // verus!
