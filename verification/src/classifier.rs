//! The discrete half of the directory classifier: tokens, classes, vocabulary,
//! term counts, sampling order and the choice of the best guesses. Weights and
//! probabilities are computed outside, from what stands here.

use vstd::prelude::*;
use vstd::utf8::encode_utf8;

use crate::cache::counted;
use crate::order::OrderedKey;
use crate::rank::{is_ranking, rank, ranked_before, score_key, score_order};
use crate::sorted::{ascending, entries_of, SortedMap};
use crate::store::FileEntry;
use crate::text::{byte_len, lowercase, runs, split_runs, texts, to_lower};

verus! {

/// The most terms that the vocabulary holds.
pub const MAX_VOCAB: usize = 400;

/// The most directories that can be predicted.
pub const MAX_CLASSES: usize = 40;

/// The most files that a training run uses.
pub const MAX_SAMPLES: usize = 6000;

/// How many directories are guessed for a query.
pub const MAX_GUESSES: usize = 3;

/// The characters between the words of a path or a query.
pub open spec fn word_separators() -> Seq<char> {
    seq!['/', '\\', '_', '-', '.', ' ']
}

/// Those of the first `n` words that have at least two bytes.
pub open spec fn kept_words(words: Seq<Seq<char>>, n: int) -> Seq<Seq<char>>
    decreases n,
{
    if n <= 0 {
        Seq::empty()
    } else if encode_utf8(words[n - 1]).len() >= 2 {
        kept_words(words, n - 1).push(words[n - 1])
    } else {
        kept_words(words, n - 1)
    }
}

/// The words of a path or a query, in lower case.
pub open spec fn lower_words(s: Seq<char>) -> Seq<Seq<char>> {
    let words = runs(s, word_separators());
    Seq::new(words.len(), |i: int| lowercase(words[i]))
}

/// The word pieces of a path or a query.
pub open spec fn tokens(s: Seq<char>) -> Seq<Seq<char>> {
    kept_words(lower_words(s), lower_words(s).len() as int)
}

/// The words that have at least two bytes.
pub fn keep_words(words: &Vec<String>) -> (v: Vec<String>)
    ensures
        texts(v@) == kept_words(texts(words@), words@.len() as int),
{
    let ghost all = texts(words@);
    let mut v: Vec<String> = Vec::new();
    let mut i: usize = 0;
    assert(texts(v@) =~= kept_words(all, 0));
    while i < words.len()
        invariant
            all == texts(words@),
            i <= words@.len(),
            texts(v@) == kept_words(all, i as int),
        decreases words@.len() - i,
    {
        assert(all[i as int] == words@[i as int]@);
        if byte_len(words[i].as_str()) >= 2 {
            let ghost before = v@;
            v.push(words[i].clone());
            assert(texts(v@) =~= texts(before).push(all[i as int]));
        }
        i = i + 1;
    }
    v
}

/// How often `t` occurs among the first `n` texts.
pub open spec fn occurrences(s: Seq<Seq<char>>, t: Seq<char>, n: int) -> nat
    decreases n,
{
    if n <= 0 {
        0
    } else {
        occurrences(s, t, n - 1) + if s[n - 1] == t {
            1nat
        } else {
            0nat
        }
    }
}

/// In how many of the first `n` documents `t` occurs.
pub open spec fn doc_freq(docs: Seq<Seq<Seq<char>>>, t: Seq<char>, n: int) -> nat
    decreases n,
{
    if n <= 0 {
        0
    } else {
        doc_freq(docs, t, n - 1) + if docs[n - 1].contains(t) {
            1nat
        } else {
            0nat
        }
    }
}

proof fn lemma_doc_freq_bound(docs: Seq<Seq<Seq<char>>>, t: Seq<char>, n: int)
    requires
        0 <= n,
    ensures
        doc_freq(docs, t, n) <= n,
    decreases n,
{
    if n > 0 {
        lemma_doc_freq_bound(docs, t, n - 1);
    }
}

proof fn lemma_occurrences_bound(s: Seq<Seq<char>>, t: Seq<char>, n: int)
    requires
        0 <= n,
    ensures
        occurrences(s, t, n) <= n,
    decreases n,
{
    if n > 0 {
        lemma_occurrences_bound(s, t, n - 1);
    }
}

/// A text occurs exactly if it is counted.
pub proof fn lemma_occurrences_contains(s: Seq<Seq<char>>, t: Seq<char>, n: int)
    requires
        0 <= n <= s.len(),
    ensures
        occurrences(s, t, n) > 0 <==> s.take(n).contains(t),
    decreases n,
{
    if n > 0 {
        lemma_occurrences_contains(s, t, n - 1);
        let a = s.take(n);
        let b = s.take(n - 1);
        if b.contains(t) {
            let i = choose|i: int| 0 <= i < b.len() && b[i] == t;
            assert(a[i] == t);
        }
        if s[n - 1] == t {
            assert(a[n - 1] == t);
        }
        if a.contains(t) {
            let i = choose|i: int| 0 <= i < a.len() && a[i] == t;
            if i < n - 1 {
                assert(b[i] == t);
            }
        }
    }
}

/// The map holds, for every text that occurs, how often it does.
pub open spec fn tallies(m: Map<Seq<char>, usize>, s: Seq<Seq<char>>, n: int) -> bool {
    forall|t: Seq<char>|
        #![trigger m.contains_key(t)]
        #![trigger occurrences(s, t, n)]
        (m.contains_key(t) <==> occurrences(s, t, n) > 0) && (m.contains_key(t) ==> m[t]
            == occurrences(s, t, n))
}

/// The entries of a count map whose counts are at least `least`, in ascending
/// order of their texts.
pub open spec fn at_least(m: Seq<(Seq<char>, usize)>, least: usize, n: int) -> Seq<
    (Seq<char>, usize),
>
    decreases n,
{
    if n <= 0 {
        Seq::empty()
    } else if m[n - 1].1 >= least {
        at_least(m, least, n - 1).push(m[n - 1])
    } else {
        at_least(m, least, n - 1)
    }
}

/// The counts as keys to rank by; a count beyond the range of the keys is the
/// highest key.
pub open spec fn count_keys(s: Seq<(Seq<char>, usize)>) -> Seq<i64> {
    Seq::new(s.len(), |i: int| count_key(s[i].1))
}

pub open spec fn count_key(n: usize) -> i64 {
    if n <= i64::MAX {
        n as i64
    } else {
        i64::MAX
    }
}

/// `top` holds the `max` most frequent of `all`; of equally frequent ones the
/// first.
pub open spec fn most_frequent(
    all: Seq<(Seq<char>, usize)>,
    max: usize,
    top: Seq<(Seq<char>, usize)>,
) -> bool {
    &&& top.len() == if all.len() <= max {
        all.len()
    } else {
        max as nat
    }
    &&& exists|p: Seq<usize>| #[trigger]
        is_ranking(count_keys(all), p) && forall|i: int|
            0 <= i < top.len() ==> #[trigger] top[i] == all[p[i] as int]
}

/// What the pairs of strings and counts say.
pub open spec fn count_texts(v: Seq<(String, usize)>) -> Seq<(Seq<char>, usize)> {
    Seq::new(v.len(), |i: int| (v[i].0@, v[i].1))
}

/// Counts one more occurrence of a text.
fn bump(m: &mut SortedMap<String, usize>, t: &String)
    requires
        old(m)@.contains_key(t@) ==> old(m)@[t@] < usize::MAX,
    ensures
        final(m)@ == old(m)@.insert(
            t@,
            (if old(m)@.contains_key(t@) {
                (old(m)@[t@] + 1) as usize
            } else {
                1
            }),
        ),
{
    let n: usize = match m.get(t) {
        Some(n) => *n + 1,
        None => 1,
    };
    m.insert(t.clone(), n);
}

/// The most frequent of the counted texts, from the most to the least frequent.
fn top_counts(m: &SortedMap<String, usize>, least: usize, max: usize) -> (v: Vec<(String, usize)>)
    ensures
        most_frequent(
            at_least(
                entries_of::<String, usize>(m@),
                least,
                entries_of::<String, usize>(m@).len() as int,
            ),
            max,
            count_texts(v@),
        ),
{
    let n: usize = m.len();
    let ghost all = m.entries();
    let mut list: Vec<(String, usize)> = Vec::new();
    let mut keys: Vec<i64> = Vec::new();
    let mut i: usize = 0;
    assert(count_texts(list@) =~= at_least(all, least, 0));
    while i < n
        invariant
            all == m.entries(),
            n == all.len(),
            i <= n,
            count_texts(list@) == at_least(all, least, i as int),
            keys@ == count_keys(count_texts(list@)),
        decreases n - i,
    {
        let e = m.entry(i);
        let c: usize = *e.1;
        if c >= least {
            let ghost before = list@;
            list.push((e.0.clone(), c));
            let key: i64 = if c as u128 <= i64::MAX as u128 {
                c as i64
            } else {
                i64::MAX
            };
            keys.push(key);
            assert(count_texts(list@) =~= count_texts(before).push(all[i as int]));
            assert(keys@ =~= count_keys(count_texts(list@)));
        }
        i = i + 1;
    }
    let p = rank(&keys);
    let ghost want = at_least(all, least, n as int);
    assert(list@.len() == count_texts(list@).len());
    let take: usize = if list.len() <= max {
        list.len()
    } else {
        max
    };
    let mut v: Vec<(String, usize)> = Vec::new();
    let mut j: usize = 0;
    while j < take
        invariant
            take <= list@.len(),
            count_texts(list@) == want,
            is_ranking(count_keys(want), p@),
            want.len() == list@.len(),
            j == v@.len(),
            j <= take,
            forall|x: int|
                0 <= x < j ==> ((#[trigger] v@[x]).0@, v@[x].1) == want[p@[x] as int],
        decreases take - j,
    {
        let at: usize = p[j];
        assert(want[at as int] == (list@[at as int].0@, list@[at as int].1));
        v.push((list[at].0.clone(), list[at].1));
        j = j + 1;
    }
    proof {
        assert forall|x: int| 0 <= x < count_texts(v@).len() implies #[trigger] count_texts(v@)[x]
            == want[p@[x] as int] by {
            let _ = v@[x];
        }
    }
    v
}

/// The parent directories of the files.
pub open spec fn parents(entries: Seq<FileEntry>) -> Seq<Seq<char>> {
    Seq::new(entries.len(), |i: int| entries[i].parent@)
}

/// `v` holds the most common parent directories of the files, with how many of
/// the files are in them.
pub open spec fn common_parents(entries: Seq<FileEntry>, v: Seq<(Seq<char>, usize)>) -> bool {
    exists|m: Map<Seq<char>, usize>| #[trigger]
        tallies(m, parents(entries), entries.len() as int) && most_frequent(
            at_least(
                entries_of::<String, usize>(m),
                0,
                entries_of::<String, usize>(m).len() as int,
            ),
            MAX_CLASSES,
            v,
        )
}

/// The positions among the first `n` files whose parent directory is a class.
pub open spec fn labelled(entries: Seq<FileEntry>, classes: Seq<Seq<char>>, n: int) -> Seq<usize>
    decreases n,
{
    if n <= 0 {
        Seq::empty()
    } else if classes.contains(entries[n - 1].parent@) {
        labelled(entries, classes, n - 1).push((n - 1) as usize)
    } else {
        labelled(entries, classes, n - 1)
    }
}

/// The word pieces of the paths of the picked files.
pub open spec fn documents(entries: Seq<FileEntry>, picked: Seq<usize>) -> Seq<Seq<Seq<char>>> {
    Seq::new(picked.len(), |i: int| tokens(entries[picked[i] as int].path@))
}

/// The map holds, for every term of the documents, in how many of them it
/// occurs.
pub open spec fn doc_tallies(m: Map<Seq<char>, usize>, docs: Seq<Seq<Seq<char>>>, n: int) -> bool {
    forall|t: Seq<char>|
        #![trigger m.contains_key(t)]
        #![trigger doc_freq(docs, t, n)]
        (m.contains_key(t) <==> doc_freq(docs, t, n) > 0) && (m.contains_key(t) ==> m[t]
            == doc_freq(docs, t, n))
}

/// The position of `t` among the texts; their number where it is not there.
fn find_text(v: &Vec<String>, t: &String) -> (i: usize)
    ensures
        i <= v@.len(),
        i < v@.len() <==> texts(v@).contains(t@),
        i < v@.len() ==> v@[i as int]@ == t@,
        forall|j: int| 0 <= j < i ==> (#[trigger] v@[j])@ != t@,
{
    let mut i: usize = 0;
    while i < v.len()
        invariant
            i <= v@.len(),
            forall|j: int| 0 <= j < i ==> (#[trigger] v@[j])@ != t@,
        decreases v@.len() - i,
    {
        if v[i] == *t {
            assert(texts(v@)[i as int] == t@);
            return i;
        }
        i = i + 1;
    }
    proof {
        if texts(v@).contains(t@) {
            let j = choose|j: int| 0 <= j < texts(v@).len() && texts(v@)[j] == t@;
            assert(v@[j]@ == t@);
        }
    }
    i
}

/// What is known of one document: how often each term occurs in it, how many
/// word pieces it has, and which class it belongs to.
pub struct Row {
    pub counts: Vec<usize>,
    pub len: usize,
    pub class: usize,
}

/// `counts` says how often each term occurs in the document.
pub open spec fn counts_terms(
    counts: Seq<usize>,
    terms: Seq<Seq<char>>,
    doc: Seq<Seq<char>>,
    n: int,
) -> bool {
    &&& counts.len() == terms.len()
    &&& forall|j: int|
        0 <= j < terms.len() ==> #[trigger] counts[j] == occurrences(doc, terms[j], n)
}

/// No term occurs twice.
pub open spec fn distinct(terms: Seq<Seq<char>>) -> bool {
    forall|i: int, j: int| 0 <= i < j < terms.len() ==> #[trigger] terms[i] != #[trigger] terms[j]
}

/// The state of a [`Classifier`].
#[verifier::ext_equal]
pub struct ClassifierModel {
    /// The terms, by the number of their feature.
    pub terms: Seq<Seq<char>>,
    /// The directories that can be predicted.
    pub classes: Seq<Seq<char>>,
    pub updates: u64,
    pub version: u64,
}

/// What a query looks like to the model.
pub struct Features {
    /// How often each term of the vocabulary occurs in the query.
    pub counts: Vec<usize>,
    /// How many word pieces the query has.
    pub len: usize,
}

/// The vocabulary and the classes of the directory classifier, and how often
/// the model has changed.
pub struct Classifier {
    terms: Vec<String>,
    vocab: SortedMap<String, usize>,
    classes: Vec<String>,
    updates: u64,
    version: u64,
}

impl View for Classifier {
    type V = ClassifierModel;

    closed spec fn view(&self) -> ClassifierModel {
        ClassifierModel {
            terms: texts(self.terms@),
            classes: texts(self.classes@),
            updates: self.updates,
            version: self.version,
        }
    }
}

/// The vocabulary finds the number of every term.
spec fn numbered(vocab: Map<Seq<char>, usize>, terms: Seq<Seq<char>>) -> bool {
    &&& forall|t: Seq<char>| #[trigger]
        vocab.contains_key(t) ==> vocab[t] < terms.len() && terms[vocab[t] as int] == t
    &&& forall|j: int|
        0 <= j < terms.len() ==> vocab.contains_key(#[trigger] terms[j]) && vocab[terms[j]] == j
}

/// Counts the terms of a document.
fn count_terms(vocab: &SortedMap<String, usize>, n: usize, doc: &Vec<String>, Ghost(terms): Ghost<
    Seq<Seq<char>>,
>) -> (counts: Vec<usize>)
    requires
        numbered(vocab@, terms),
        terms.len() == n,
    ensures
        counts_terms(counts@, terms, texts(doc@), doc@.len() as int),
{
    let mut counts: Vec<usize> = Vec::new();
    let mut k: usize = 0;
    while k < n
        invariant
            k <= n,
            terms.len() == n,
            counts@.len() == k,
            forall|j: int| 0 <= j < k ==> (#[trigger] counts@[j]) == 0,
        decreases n - k,
    {
        counts.push(0);
        k = k + 1;
    }
    let ghost all = texts(doc@);
    let mut i: usize = 0;
    while i < doc.len()
        invariant
            numbered(vocab@, terms),
            all == texts(doc@),
            i <= doc@.len(),
            counts_terms(counts@, terms, all, i as int),
        decreases doc@.len() - i,
    {
        assert(all[i as int] == doc@[i as int]@);
        match vocab.get(&doc[i]) {
            Some(at) => {
                let at: usize = *at;
                let ghost before = counts@;
                proof {
                    lemma_occurrences_bound(all, terms[at as int], i as int);
                    assert(i < doc.len());
                }
                let c: usize = counts[at];
                counts.set(at, c + 1);
                proof {
                    assert forall|j: int| 0 <= j < terms.len() implies #[trigger] counts@[j]
                        == occurrences(all, terms[j], i + 1) by {
                        if j != at {
                            assert(before[j] == occurrences(all, terms[j], i as int));
                            assert(vocab@[terms[j]] == j);
                        }
                    }
                }
            },
            None => {
                proof {
                    assert forall|j: int| 0 <= j < terms.len() implies #[trigger] counts@[j]
                        == occurrences(all, terms[j], i + 1) by {
                        assert(vocab@.contains_key(terms[j]));
                    }
                }
            },
        }
        i = i + 1;
    }
    counts
}

impl Classifier {
    pub closed spec fn wf(&self) -> bool {
        numbered(self.vocab@, self@.terms)
    }

    /// A classifier that knows nothing.
    pub fn untrained() -> (c: Classifier)
        ensures
            c.wf(),
            c@ == (ClassifierModel {
                terms: Seq::empty(),
                classes: Seq::empty(),
                updates: 0,
                version: 0,
            }),
    {
        let c = Classifier {
            terms: Vec::new(),
            vocab: SortedMap::new(),
            classes: Vec::new(),
            updates: 0,
            version: 0,
        };
        assert(c@.terms =~= Seq::empty());
        assert(c@.classes =~= Seq::empty());
        c
    }

    /// A classifier as it was saved; `None` where a term occurs twice.
    pub fn restore(terms: Vec<String>, classes: Vec<String>, updates: u64, version: u64) -> (r: Option<
        Classifier,
    >)
        ensures
            match r {
                Some(c) => {
                    &&& c.wf()
                    &&& c@ == (ClassifierModel {
                        terms: texts(terms@),
                        classes: texts(classes@),
                        updates,
                        version,
                    })
                    &&& distinct(texts(terms@))
                },
                None => !distinct(texts(terms@)),
            },
    {
        let ghost all = texts(terms@);
        let mut vocab: SortedMap<String, usize> = SortedMap::new();
        let mut j: usize = 0;
        assert(numbered(vocab@, all.take(0)));
        while j < terms.len()
            invariant
                all == texts(terms@),
                j <= terms@.len(),
                numbered(vocab@, all.take(j as int)),
                distinct(all.take(j as int)),
            decreases terms@.len() - j,
        {
            let ghost before = all.take(j as int);
            let ghost known = vocab@;
            assert(all[j as int] == terms@[j as int]@);
            if vocab.contains_key(&terms[j]) {
                proof {
                    let x = vocab@[all[j as int]] as int;
                    assert(before[x] == all[x]);
                    assert(all[x] == all[j as int]);
                }
                return None;
            }
            vocab.insert(terms[j].clone(), j);
            proof {
                let now = all.take(j + 1);
                assert(now =~= before.push(all[j as int]));
                assert forall|x: int| 0 <= x < now.len() implies vocab@.contains_key(
                    #[trigger] now[x],
                ) && vocab@[now[x]] == x by {
                    if x < before.len() {
                        assert(now[x] == before[x]);
                        assert(known.contains_key(before[x]));
                    }
                }
                assert forall|a: int, b: int| 0 <= a < b < now.len() implies #[trigger] now[a]
                    != #[trigger] now[b] by {
                    assert(now[a] == before[a]);
                    if b < before.len() {
                        assert(now[b] == before[b]);
                    } else {
                        assert(known.contains_key(before[a]));
                    }
                }
            }
            j = j + 1;
        }
        assert(all.take(j as int) =~= all);
        Some(Classifier { terms, vocab, classes, updates, version })
    }

    /// The terms, by the number of their feature.
    pub fn terms(&self) -> (v: &Vec<String>)
        ensures
            texts(v@) == self@.terms,
    {
        &self.terms
    }

    /// The directories that can be predicted.
    pub fn classes(&self) -> (v: &Vec<String>)
        ensures
            texts(v@) == self@.classes,
    {
        &self.classes
    }

    pub fn is_trained(&self) -> (r: bool)
        ensures
            r == (self@.classes.len() > 0),
    {
        self.classes.len() > 0
    }

    pub fn version(&self) -> (n: u64)
        ensures
            n == self@.version,
    {
        self.version
    }

    pub fn online_updates(&self) -> (n: u64)
        ensures
            n == self@.updates,
    {
        self.updates
    }

    pub fn num_classes(&self) -> (n: usize)
        ensures
            n == self@.classes.len(),
    {
        self.classes.len()
    }

    pub fn vocab_size(&self) -> (n: usize)
        ensures
            n == self@.terms.len(),
    {
        self.terms.len()
    }

    /// Tokenize a path or query string into lowercase word pieces.
    pub fn tokenize(s: &str) -> (v: Vec<String>)
        ensures
            texts(v@) == tokens(s@),
    {
        let seps = ['/', '\\', '_', '-', '.', ' '];
        assert(seps@ =~= word_separators());
        let words = split_runs(s, seps.as_slice());
        let ghost all = runs(s@, word_separators());
        let mut lower: Vec<String> = Vec::new();
        let mut i: usize = 0;
        while i < words.len()
            invariant
                texts(words@) == all,
                i <= words@.len(),
                lower@.len() == i,
                forall|j: int| 0 <= j < i ==> (#[trigger] lower@[j])@ == lowercase(all[j]),
            decreases words@.len() - i,
        {
            assert(all[i as int] == words@[i as int]@);
            lower.push(to_lower(words[i].as_str()));
            i = i + 1;
        }
        assert(texts(words@).len() == words@.len());
        assert(texts(lower@) =~= lower_words(s@));
        keep_words(&lower)
    }

    /// The classes for a training run: the most common parent directories.
    pub fn classes_for(entries: &Vec<FileEntry>) -> (v: Vec<(String, usize)>)
        ensures
            common_parents(entries@, count_texts(v@)),
    {
        let ghost all = parents(entries@);
        let mut m: SortedMap<String, usize> = SortedMap::new();
        let mut i: usize = 0;
        while i < entries.len()
            invariant
                all == parents(entries@),
                i <= entries@.len(),
                tallies(m@, all, i as int),
            decreases entries@.len() - i,
        {
            proof {
                assert(all[i as int] == entries@[i as int].parent@);
                lemma_occurrences_bound(all, all[i as int], i as int);
                assert(i < entries.len());
            }
            let ghost before = m@;
            bump(&mut m, &entries[i].parent);
            proof {
                assert forall|t: Seq<char>|
                    #![trigger m@.contains_key(t)]
                    #![trigger occurrences(all, t, i + 1)]
                    (m@.contains_key(t) <==> occurrences(all, t, i + 1) > 0) && (m@.contains_key(t)
                        ==> m@[t] == occurrences(all, t, i + 1)) by {
                    let _ = before.contains_key(t);
                    let _ = occurrences(all, t, i as int);
                }
            }
            i = i + 1;
        }
        top_counts(&m, 0, MAX_CLASSES)
    }

    /// The files that belong to one of the classes.
    pub fn candidates(entries: &Vec<FileEntry>, classes: &Vec<String>) -> (v: Vec<usize>)
        ensures
            v@ == labelled(entries@, texts(classes@), entries@.len() as int),
    {
        let mut v: Vec<usize> = Vec::new();
        let mut i: usize = 0;
        while i < entries.len()
            invariant
                i <= entries@.len(),
                v@ == labelled(entries@, texts(classes@), i as int),
            decreases entries@.len() - i,
        {
            if find_text(classes, &entries[i].parent) < classes.len() {
                v.push(i);
            }
            i = i + 1;
        }
        v
    }

    /// What a query looks like to the model, unless it has no term of the
    /// vocabulary.
    pub fn features(&self, query: &str) -> (r: Option<Features>)
        requires
            self.wf(),
        ensures
            match r {
                Some(f) => {
                    &&& counts_terms(
                        f.counts@,
                        self@.terms,
                        tokens(query@),
                        tokens(query@).len() as int,
                    )
                    &&& f.len == tokens(query@).len()
                    &&& exists|j: int| 0 <= j < f.counts@.len() && #[trigger] f.counts@[j] > 0
                },
                None => forall|j: int|
                    0 <= j < self@.terms.len() ==> !tokens(query@).contains(#[trigger] self@.terms[j]),
            },
    {
        let doc = Classifier::tokenize(query);
        let n: usize = self.terms.len();
        let ghost terms = self@.terms;
        let ghost all = tokens(query@);
        assert(texts(doc@).len() == doc@.len());
        let counts = count_terms(&self.vocab, n, &doc, Ghost(terms));
        let mut i: usize = 0;
        while i < n
            invariant
                i <= n,
                n == terms.len(),
                terms == self@.terms,
                all == tokens(query@),
                all.len() == doc@.len(),
                counts_terms(counts@, terms, all, all.len() as int),
                forall|j: int| 0 <= j < i ==> (#[trigger] counts@[j]) == 0,
            decreases n - i,
        {
            if counts[i] > 0 {
                let f = Features { counts, len: doc.len() };
                assert(f.counts@[i as int] > 0);
                assert(counts_terms(f.counts@, terms, all, all.len() as int));
                assert(f.len == all.len());
                assert(exists|j: int| 0 <= j < f.counts@.len() && #[trigger] f.counts@[j] > 0);
                assert(terms == self@.terms && all == tokens(query@));
                return Some(f);
            }
            i = i + 1;
        }
        proof {
            assert forall|j: int| 0 <= j < terms.len() implies !all.contains(
                #[trigger] terms[j],
            ) by {
                lemma_occurrences_contains(all, terms[j], all.len() as int);
                assert(all.take(all.len() as int) =~= all);
                assert(counts@[j] == 0);
            }
        }
        None
    }

    /// What one online step is to learn: the class of the directory and what
    /// the query looks like. `None` where the model cannot learn it.
    pub fn online_target(&self, query: &str, parent_dir: &str) -> (r: Option<(usize, Features)>)
        requires
            self.wf(),
        ensures
            match r {
                Some((class, f)) => {
                    &&& class < self@.classes.len()
                    &&& self@.classes[class as int] == parent_dir@
                    &&& forall|j: int| 0 <= j < class ==> #[trigger] self@.classes[j] != parent_dir@
                    &&& counts_terms(
                        f.counts@,
                        self@.terms,
                        tokens(query@),
                        tokens(query@).len() as int,
                    )
                    &&& f.len == tokens(query@).len()
                    &&& exists|j: int| 0 <= j < f.counts@.len() && #[trigger] f.counts@[j] > 0
                },
                None => !self@.classes.contains(parent_dir@) || forall|j: int|
                    0 <= j < self@.terms.len() ==> !tokens(query@).contains(#[trigger] self@.terms[j]),
            },
    {
        let dir = parent_dir.to_owned();
        let class: usize = find_text(&self.classes, &dir);
        if class == self.classes.len() {
            return None;
        }
        proof {
            assert forall|j: int| 0 <= j < class implies #[trigger] self@.classes[j]
                != parent_dir@ by {
                let _ = self.classes@[j];
            }
        }
        match self.features(query) {
            Some(f) => Some((class, f)),
            None => None,
        }
    }

    /// The classifier with the version that follows `last`.
    pub fn following(self, last: u64) -> (c: Classifier)
        requires
            self.wf(),
        ensures
            c.wf(),
            c@ == (ClassifierModel { version: counted(last, 1), ..self@ }),
    {
        Classifier {
            terms: self.terms,
            vocab: self.vocab,
            classes: self.classes,
            updates: self.updates,
            version: last.wrapping_add(1),
        }
    }

    /// Counts an online step that was applied to the weights.
    pub fn note_update(&mut self)
        requires
            old(self).wf(),
        ensures
            final(self).wf(),
            final(self)@ == (ClassifierModel {
                updates: counted(old(self)@.updates, 1),
                version: counted(old(self)@.version, 1),
                ..old(self)@
            }),
    {
        self.updates = self.updates.wrapping_add(1);
        self.version = self.version.wrapping_add(1);
    }
}

/// What a training run works on.
pub struct Training {
    pub classifier: Classifier,
    /// In how many documents each term of the vocabulary occurs.
    pub doc_freqs: Vec<usize>,
    /// The documents.
    pub rows: Vec<Row>,
}

/// The documents as texts.
pub open spec fn doc_texts(docs: Seq<Vec<String>>) -> Seq<Seq<Seq<char>>> {
    Seq::new(docs.len(), |i: int| texts(docs[i]@))
}

/// The vocabulary of the documents: the most frequent of the terms that occur
/// in at least two of them.
pub open spec fn is_vocabulary(docs: Seq<Seq<Seq<char>>>, v: Seq<(Seq<char>, usize)>) -> bool {
    exists|m: Map<Seq<char>, usize>| #[trigger]
        doc_tallies(m, docs, docs.len() as int) && most_frequent(
            at_least(
                entries_of::<String, usize>(m),
                2,
                entries_of::<String, usize>(m).len() as int,
            ),
            MAX_VOCAB,
            v,
        )
}

/// `row` describes the document of a file.
pub open spec fn describes(
    row: Row,
    terms: Seq<Seq<char>>,
    classes: Seq<Seq<char>>,
    e: FileEntry,
) -> bool {
    &&& counts_terms(row.counts@, terms, tokens(e.path@), tokens(e.path@).len() as int)
    &&& row.len == tokens(e.path@).len()
    &&& row.class < classes.len()
    &&& classes[row.class as int] == e.parent@
}

/// Counts, for every term, in how many documents it occurs.
fn document_frequencies(docs: &Vec<Vec<String>>) -> (m: SortedMap<String, usize>)
    ensures
        doc_tallies(m@, doc_texts(docs@), docs@.len() as int),
{
    let ghost all = doc_texts(docs@);
    let mut m: SortedMap<String, usize> = SortedMap::new();
    let mut i: usize = 0;
    while i < docs.len()
        invariant
            all == doc_texts(docs@),
            i <= docs@.len(),
            doc_tallies(m@, all, i as int),
        decreases docs@.len() - i,
    {
        let ghost start = m@;
        let ghost doc = all[i as int];
        let mut seen: SortedMap<String, ()> = SortedMap::new();
        let mut j: usize = 0;
        assert(doc == texts(docs@[i as int]@));
        assert(i < docs.len());
        while j < docs[i].len()
            invariant
                all == doc_texts(docs@),
                i < docs.len(),
                doc == texts(docs@[i as int]@),
                doc_tallies(start, all, i as int),
                j <= docs@[i as int]@.len(),
                forall|t: Seq<char>| #[trigger]
                    seen@.contains_key(t) <==> doc.take(j as int).contains(t),
                forall|t: Seq<char>|
                    #![trigger m@.contains_key(t)]
                    (m@.contains_key(t) <==> start.contains_key(t) || seen@.contains_key(t)) && (
                    m@.contains_key(t) ==> m@[t] == (if start.contains_key(t) {
                        start[t] as int
                    } else {
                        0
                    }) + (if seen@.contains_key(t) {
                        1int
                    } else {
                        0
                    })),
            decreases docs@[i as int]@.len() - j,
        {
            let ghost t0 = doc[j as int];
            proof {
                assert(t0 == docs@[i as int]@[j as int]@);
                assert(doc.take(j + 1) =~= doc.take(j as int).push(t0));
                assert forall|t: Seq<char>| doc.take(j + 1).contains(t) <==> doc.take(
                    j as int,
                ).contains(t) || t == t0 by {
                    lemma_push_contains(doc.take(j as int), t0, t);
                }
                lemma_doc_freq_bound(all, t0, i as int);
                let _ = doc_freq(all, t0, i as int);
            }
            if !seen.contains_key(&docs[i][j]) {
                assert(m@.contains_key(t0) ==> m@[t0] == start[t0]);
                bump(&mut m, &docs[i][j]);
                seen.insert(docs[i][j].clone(), ());
            }
            j = j + 1;
        }
        proof {
            assert(doc.take(j as int) =~= doc);
            assert forall|t: Seq<char>|
                #![trigger m@.contains_key(t)]
                #![trigger doc_freq(all, t, i + 1)]
                (m@.contains_key(t) <==> doc_freq(all, t, i + 1) > 0) && (m@.contains_key(t)
                    ==> m@[t] == doc_freq(all, t, i + 1)) by {
                let _ = start.contains_key(t);
                let _ = doc_freq(all, t, i as int);
                let _ = seen@.contains_key(t);
            }
        }
        i = i + 1;
    }
    m
}

proof fn lemma_push_contains(s: Seq<Seq<char>>, x: Seq<char>, t: Seq<char>)
    ensures
        s.push(x).contains(t) <==> s.contains(t) || t == x,
{
    let a = s.push(x);
    if s.contains(t) {
        let i = choose|i: int| 0 <= i < s.len() && s[i] == t;
        assert(a[i] == t);
    }
    if t == x {
        assert(a[s.len() as int] == t);
    }
    if a.contains(t) {
        let i = choose|i: int| 0 <= i < a.len() && a[i] == t;
        if i < s.len() {
            assert(s[i] == t);
        }
    }
}

/// The texts of a top list are distinct.
proof fn lemma_top_distinct(
    m: Map<Seq<char>, usize>,
    least: usize,
    max: usize,
    top: Seq<(Seq<char>, usize)>,
)
    requires
        ascending::<String, usize>(entries_of::<String, usize>(m)),
        most_frequent(
            at_least(
                entries_of::<String, usize>(m),
                least,
                entries_of::<String, usize>(m).len() as int,
            ),
            max,
            top,
        ),
    ensures
        forall|i: int, j: int|
            0 <= i < j < top.len() ==> (#[trigger] top[i]).0 != (#[trigger] top[j]).0,
{
    let list = entries_of::<String, usize>(m);
    let all = at_least(list, least, list.len() as int);
    lemma_at_least_ascending(list, least, list.len() as int);
    let p = choose|p: Seq<usize>| #[trigger]
        is_ranking(count_keys(all), p) && forall|i: int|
            0 <= i < top.len() ==> #[trigger] top[i] == all[p[i] as int];
    assert forall|i: int, j: int| 0 <= i < j < top.len() implies (#[trigger] top[i]).0 != (
    #[trigger] top[j]).0 by {
        assert(ranked_before(count_keys(all), p[i], p[j]));
        let a = p[i] as int;
        let b = p[j] as int;
        if all[a].0 == all[b].0 {
            String::irreflexive(all[a].0);
            if a < b {
                assert(String::before(all[a].0, all[b].0));
            } else if b < a {
                assert(String::before(all[b].0, all[a].0));
            }
        }
    }
}

proof fn lemma_at_least_ascending(m: Seq<(Seq<char>, usize)>, least: usize, n: int)
    requires
        ascending::<String, usize>(m),
        0 <= n <= m.len(),
    ensures
        ascending::<String, usize>(at_least(m, least, n)),
        forall|j: int|
            0 <= j < at_least(m, least, n).len() ==> exists|i: int|
                0 <= i < n && (#[trigger] m[i]) == (#[trigger] at_least(m, least, n)[j]),
    decreases n,
{
    if n > 0 {
        lemma_at_least_ascending(m, least, n - 1);
        let before = at_least(m, least, n - 1);
        let now = at_least(m, least, n);
        if m[n - 1].1 >= least {
            assert forall|j: int| 0 <= j < now.len() implies exists|i: int|
                0 <= i < n && (#[trigger] m[i]) == (#[trigger] now[j]) by {
                if j < before.len() {
                    assert(now[j] == before[j]);
                } else {
                    assert(m[n - 1] == now[j]);
                }
            }
            assert forall|a: int, b: int| 0 <= a < b < now.len() implies String::before(
                (#[trigger] now[a]).0,
                (#[trigger] now[b]).0,
            ) by {
                assert(now[a] == before[a]);
                if b < before.len() {
                    assert(now[b] == before[b]);
                } else {
                    let i = choose|i: int| 0 <= i < n - 1 && (#[trigger] m[i]) == before[a];
                    assert(String::before(m[i].0, m[n - 1].0));
                }
            }
        }
    }
}

/// What a training run on the picked files works on; `None` where there is
/// nothing to learn.
pub open spec fn prepared(
    entries: Seq<FileEntry>,
    classes: Seq<Seq<char>>,
    picked: Seq<usize>,
    last: u64,
    r: Option<Training>,
) -> bool {
    exists|v: Seq<(Seq<char>, usize)>| #[trigger]
        is_vocabulary(documents(entries, picked), v) && match r {
            None => picked.len() == 0 || classes.len() < 2 || v.len() == 0,
            Some(t) => {
                &&& picked.len() > 0 && classes.len() >= 2 && v.len() > 0
                &&& t.classifier.wf()
                &&& t.classifier@.classes == classes
                &&& t.classifier@.updates == 0
                &&& t.classifier@.version == counted(last, 1)
                &&& t.classifier@.terms == Seq::new(v.len(), |j: int| v[j].0)
                &&& t.doc_freqs@ == Seq::new(v.len(), |j: int| v[j].1)
                &&& t.rows@.len() == picked.len()
                &&& forall|i: int|
                    0 <= i < picked.len() ==> describes(
                        #[trigger] t.rows@[i],
                        t.classifier@.terms,
                        classes,
                        entries[picked[i] as int],
                    )
            },
        }
}

impl Classifier {
    /// Prepares a training run on the picked files: a fresh classifier with the
    /// vocabulary of their paths, and the term counts and the class of each
    /// file. Its version follows `last`. `None` where there is nothing to learn:
    /// no file, fewer than two classes, or no term that occurs in two files.
    pub fn train(entries: &Vec<FileEntry>, classes: Vec<String>, picked: &Vec<usize>, last: u64) -> (r:
        Option<Training>)
        requires
            forall|i: int|
                0 <= i < picked@.len() ==> (#[trigger] picked@[i]) < entries@.len()
                    && texts(classes@).contains(entries@[picked@[i] as int].parent@),
        ensures
            prepared(entries@, texts(classes@), picked@, last, r),
    {
        let mut docs: Vec<Vec<String>> = Vec::new();
        let ghost want = documents(entries@, picked@);
        let mut i: usize = 0;
        while i < picked.len()
            invariant
                want == documents(entries@, picked@),
                forall|j: int|
                    0 <= j < picked@.len() ==> (#[trigger] picked@[j]) < entries@.len(),
                i <= picked@.len(),
                docs@.len() == i,
                forall|j: int| 0 <= j < i ==> texts((#[trigger] docs@[j])@) == want[j],
            decreases picked@.len() - i,
        {
            let at: usize = picked[i];
            docs.push(Classifier::tokenize(entries[at].path.as_str()));
            i = i + 1;
        }
        assert(doc_texts(docs@) =~= want);
        let df = document_frequencies(&docs);
        let top = top_counts(&df, 2, MAX_VOCAB);
        let ghost v = count_texts(top@);
        let _ = df.len();
        proof {
            assert(doc_tallies(df@, want, want.len() as int));
            assert(is_vocabulary(want, v));
            lemma_top_distinct(df@, 2, MAX_VOCAB, v);
        }
        if picked.len() == 0 || classes.len() < 2 || top.len() == 0 {
            assert(v.len() == top@.len());
            return None;
        }
        let mut terms: Vec<String> = Vec::new();
        let mut vocab: SortedMap<String, usize> = SortedMap::new();
        let mut doc_freqs: Vec<usize> = Vec::new();
        let mut j: usize = 0;
        assert(numbered(vocab@, texts(terms@)));
        while j < top.len()
            invariant
                v == count_texts(top@),
                forall|a: int, b: int|
                    0 <= a < b < v.len() ==> (#[trigger] v[a]).0 != (#[trigger] v[b]).0,
                j <= top@.len(),
                terms@.len() == j,
                doc_freqs@.len() == j,
                forall|x: int| 0 <= x < j ==> (#[trigger] terms@[x])@ == v[x].0,
                forall|x: int| 0 <= x < j ==> (#[trigger] doc_freqs@[x]) == v[x].1,
                numbered(vocab@, texts(terms@)),
            decreases top@.len() - j,
        {
            let ghost before = texts(terms@);
            let ghost vocab_before = vocab@;
            let t = top[j].0.clone();
            proof {
                assert(v[j as int] == (top@[j as int].0@, top@[j as int].1));
                if vocab@.contains_key(t@) {
                    let x = vocab@[t@] as int;
                    assert(before[x] == terms@[x]@);
                    assert(v[x].0 != v[j as int].0);
                }
            }
            vocab.insert(t.clone(), j);
            doc_freqs.push(top[j].1);
            terms.push(t);
            proof {
                let now = texts(terms@);
                assert(now =~= before.push(v[j as int].0));
                assert forall|x: int| 0 <= x < now.len() implies vocab@.contains_key(
                    #[trigger] now[x],
                ) && vocab@[now[x]] == x by {
                    if x < before.len() {
                        assert(now[x] == before[x]);
                        assert(vocab_before.contains_key(before[x]));
                    }
                }
            }
            j = j + 1;
        }
        let ghost names = texts(terms@);
        proof {
            assert(names =~= Seq::new(v.len(), |x: int| v[x].0));
            assert(doc_freqs@ =~= Seq::new(v.len(), |x: int| v[x].1));
        }
        let n: usize = terms.len();
        let mut rows: Vec<Row> = Vec::new();
        let mut k: usize = 0;
        while k < picked.len()
            invariant
                forall|x: int|
                    0 <= x < picked@.len() ==> (#[trigger] picked@[x]) < entries@.len()
                        && texts(classes@).contains(entries@[picked@[x] as int].parent@),
                want == documents(entries@, picked@),
                doc_texts(docs@) == want,
                docs@.len() == picked@.len(),
                numbered(vocab@, names),
                names.len() == n,
                k <= picked@.len(),
                rows@.len() == k,
                forall|x: int|
                    0 <= x < k ==> describes(
                        #[trigger] rows@[x],
                        names,
                        texts(classes@),
                        entries@[picked@[x] as int],
                    ),
            decreases picked@.len() - k,
        {
            let at: usize = picked[k];
            proof {
                assert(want[k as int] == texts(docs@[k as int]@));
                assert(texts(docs@[k as int]@).len() == docs@[k as int]@.len());
            }
            let counts = count_terms(&vocab, n, &docs[k], Ghost(names));
            let class: usize = find_text(&classes, &entries[at].parent);
            assert(texts(classes@)[class as int] == classes@[class as int]@);
            rows.push(Row { counts, len: docs[k].len(), class });
            k = k + 1;
        }
        let classifier = Classifier { terms, vocab, classes, updates: 0, version: last.wrapping_add(1) };
        Some(Training { classifier, doc_freqs, rows })
    }

    /// The best guesses: the classes with the highest probabilities, which are
    /// given as bit patterns in the order of the classes.
    pub fn top3(&self, probs: &Vec<u64>) -> (v: Vec<(String, u64)>)
        requires
            probs@.len() == self@.classes.len(),
        ensures
            best_guesses(self@.classes, probs@, guess_texts(v@)),
    {
        let mut keys: Vec<i64> = Vec::new();
        let mut i: usize = 0;
        while i < probs.len()
            invariant
                i <= probs@.len(),
                keys@.len() == i,
                forall|j: int| 0 <= j < i ==> (#[trigger] keys@[j]) == score_order(probs@[j]),
            decreases probs@.len() - i,
        {
            keys.push(score_key(probs[i]));
            i = i + 1;
        }
        let p = rank(&keys);
        let ghost want = score_keys(probs@);
        assert(keys@ =~= want);
        let take: usize = if probs.len() <= MAX_GUESSES {
            probs.len()
        } else {
            MAX_GUESSES
        };
        let mut v: Vec<(String, u64)> = Vec::new();
        let mut j: usize = 0;
        while j < take
            invariant
                take <= probs@.len(),
                probs@.len() == self@.classes.len(),
                want == score_keys(probs@),
                is_ranking(want, p@),
                j == v@.len(),
                j <= take,
                forall|x: int|
                    0 <= x < j ==> ((#[trigger] v@[x]).0@, v@[x].1) == (
                        self@.classes[p@[x] as int],
                        probs@[p@[x] as int],
                    ),
            decreases take - j,
        {
            let at: usize = p[j];
            v.push((self.classes[at].clone(), probs[at]));
            j = j + 1;
        }
        proof {
            assert forall|x: int| 0 <= x < guess_texts(v@).len() implies #[trigger] guess_texts(
                v@,
            )[x] == (self@.classes[p@[x] as int], probs@[p@[x] as int]) by {
                let _ = v@[x];
            }
        }
        v
    }
}

/// The scores as keys to rank by.
pub open spec fn score_keys(scores: Seq<u64>) -> Seq<i64> {
    Seq::new(scores.len(), |i: int| score_order(scores[i]) as i64)
}

/// What the guesses say.
pub open spec fn guess_texts(v: Seq<(String, u64)>) -> Seq<(Seq<char>, u64)> {
    Seq::new(v.len(), |i: int| (v[i].0@, v[i].1))
}

/// `v` holds the classes with the three highest scores, the highest first.
pub open spec fn best_guesses(
    classes: Seq<Seq<char>>,
    probs: Seq<u64>,
    v: Seq<(Seq<char>, u64)>,
) -> bool {
    &&& v.len() == if classes.len() <= MAX_GUESSES {
        classes.len()
    } else {
        MAX_GUESSES as nat
    }
    &&& exists|p: Seq<usize>| #[trigger]
        is_ranking(score_keys(probs), p) && forall|i: int|
            0 <= i < v.len() ==> #[trigger] v[i] == (classes[p[i] as int], probs[p[i] as int])
}

/// The next state of the generator.
pub open spec fn xorshift(x: u64) -> u64 {
    let a = x ^ (x << 13);
    let b = a ^ (a >> 7);
    b ^ (b << 17)
}

/// The state of the generator after `n` draws.
pub open spec fn nth_draw(state: u64, n: int) -> u64
    decreases n,
{
    if n <= 0 {
        state
    } else {
        xorshift(nth_draw(state, n - 1))
    }
}

/// Small pseudo-random number generator (xorshift64): well-distributed, not
/// cryptographic. Advances the state, which is also the number drawn.
pub fn xorshift64(state: &mut u64) -> (x: u64)
    ensures
        x == xorshift(*old(state)),
        *final(state) == x,
{
    let mut x: u64 = *state;
    x = x ^ (x << 13);
    x = x ^ (x >> 7);
    x = x ^ (x << 17);
    *state = x;
    x
}

/// The generator never gets stuck at zero.
pub proof fn law_generator_never_reaches_zero(x: u64)
    requires
        x != 0,
    ensures
        xorshift(x) != 0,
{
    let a = x ^ (x << 13);
    let b = a ^ (a >> 7);
    assert(a != 0) by (bit_vector)
        requires
            x != 0,
            a == x ^ (x << 13),
    ;
    assert(b != 0) by (bit_vector)
        requires
            a != 0,
            b == a ^ (a >> 7),
    ;
    assert(b ^ (b << 17) != 0) by (bit_vector)
        requires
            b != 0,
    ;
}

/// The seed of the sampling of `n` files at the time `now`.
pub fn reservoir_seed(now: i64, n: usize) -> (s: u64)
    ensures
        s == (now as u64) ^ (n as u64).wrapping_mul(0x9E37_79B9_7F4A_7C15),
{
    (now as u64) ^ (n as u64).wrapping_mul(0x9E37_79B9_7F4A_7C15)
}

/// One draw of the generator for each of `n` files. The generator must not be
/// seeded with 0, so the lowest bit of the seed is set.
pub fn reservoir_draws(seed: u64, n: usize) -> (v: Vec<u64>)
    ensures
        v@.len() == n,
        forall|i: int| 0 <= i < n ==> (#[trigger] v@[i]) == nth_draw(seed | 1, i + 1),
{
    let mut state: u64 = seed | 1;
    let mut v: Vec<u64> = Vec::new();
    let mut i: usize = 0;
    while i < n
        invariant
            i <= n,
            v@.len() == i,
            state == nth_draw(seed | 1, i as int),
            forall|j: int| 0 <= j < i ==> (#[trigger] v@[j]) == nth_draw(seed | 1, j + 1),
        decreases n - i,
    {
        v.push(xorshift64(&mut state));
        i = i + 1;
    }
    v
}

/// `v` holds the positions of the `k` highest keys, the highest first.
pub open spec fn largest_keys(keys: Seq<u64>, k: usize, v: Seq<usize>) -> bool {
    &&& v.len() == if keys.len() <= k {
        keys.len()
    } else {
        k as nat
    }
    &&& exists|p: Seq<usize>| #[trigger]
        is_ranking(score_keys(keys), p) && v == p.take(v.len() as int)
}

/// Weighted reservoir sampling: of files that were given the keys `keys`, as
/// bit patterns of doubles, the `k` with the largest keys are kept. With the key
/// `u^(1/w)` for a uniform `u` and a weight `w` this is a sample without
/// replacement in which an item's inclusion probability scales with its weight.
pub fn weighted_reservoir(keys: &Vec<u64>, k: usize) -> (v: Vec<usize>)
    ensures
        largest_keys(keys@, k, v@),
{
    let mut order: Vec<i64> = Vec::new();
    let mut i: usize = 0;
    while i < keys.len()
        invariant
            i <= keys@.len(),
            order@.len() == i,
            forall|j: int| 0 <= j < i ==> (#[trigger] order@[j]) == score_order(keys@[j]),
        decreases keys@.len() - i,
    {
        order.push(score_key(keys[i]));
        i = i + 1;
    }
    assert(order@ =~= score_keys(keys@));
    let mut p = rank(&order);
    let ghost all = p@;
    if p.len() > k {
        p.truncate(k);
    }
    assert(p@ =~= all.take(p@.len() as int));
    p
}

/// `r` is what a training run uses of the files `training` with the sampling
/// keys `keys`: all of them, or those with the largest keys where they are more
/// than [`MAX_SAMPLES`].
pub open spec fn is_training_sample(training: Seq<usize>, keys: Seq<u64>, r: Seq<usize>) -> bool {
    if training.len() <= MAX_SAMPLES {
        r == training
    } else {
        exists|v: Seq<usize>| #[trigger]
            largest_keys(keys, MAX_SAMPLES, v) && r == v.map_values(
                |i: usize| training[i as int],
            )
    }
}

/// Down-samples the files of a training run to the budget.
pub fn training_sample(training: Vec<usize>, keys: &Vec<u64>) -> (r: Vec<usize>)
    requires
        keys@.len() == training@.len(),
    ensures
        is_training_sample(training@, keys@, r@),
{
    if training.len() <= MAX_SAMPLES {
        return training;
    }
    let v = weighted_reservoir(keys, MAX_SAMPLES);
    proof {
        let p = choose|p: Seq<usize>| #[trigger]
            is_ranking(score_keys(keys@), p) && v@ == p.take(v@.len() as int);
        assert forall|j: int| 0 <= j < v@.len() implies (#[trigger] v@[j]) < training@.len() by {
            assert(v@[j] == p[j]);
        }
    }
    let mut r: Vec<usize> = Vec::new();
    let mut i: usize = 0;
    while i < v.len()
        invariant
            i <= v@.len(),
            r@ == v@.take(i as int).map_values(|i: usize| training@[i as int]),
            forall|j: int| 0 <= j < v@.len() ==> (#[trigger] v@[j]) < training@.len(),
        decreases v@.len() - i,
    {
        r.push(training[v[i]]);
        i = i + 1;
        assert(r@ =~= v@.take(i as int).map_values(|i: usize| training@[i as int]));
    }
    assert(v@.take(i as int) =~= v@);
    r
}

/// The classes of a training run and the files that belong to them.
pub struct TrainingPlan {
    pub classes: Vec<String>,
    pub training: Vec<usize>,
}

impl TrainingPlan {
    /// The classes are the most common parent directories of the files, and the
    /// files are all that are in one of them.
    pub open spec fn is_for(&self, entries: Seq<FileEntry>) -> bool {
        &&& exists|v: Seq<(Seq<char>, usize)>| #[trigger]
            common_parents(entries, v) && texts(self.classes@) == Seq::new(
                v.len(),
                |i: int| v[i].0,
            )
        &&& self.training@ == labelled(entries, texts(self.classes@), entries.len() as int)
    }
}

proof fn lemma_labelled(entries: Seq<FileEntry>, classes: Seq<Seq<char>>, n: int, i: int)
    requires
        0 <= n <= entries.len() <= usize::MAX,
        0 <= i < labelled(entries, classes, n).len(),
    ensures
        labelled(entries, classes, n)[i] < n,
        classes.contains(entries[labelled(entries, classes, n)[i] as int].parent@),
    decreases n,
{
    if n > 0 {
        if i < labelled(entries, classes, n - 1).len() {
            lemma_labelled(entries, classes, n - 1, i);
        }
    }
}

impl Classifier {
    /// Chooses the classes of a training run and the files that belong to them.
    pub fn plan(entries: &Vec<FileEntry>) -> (p: TrainingPlan)
        ensures
            p.is_for(entries@),
    {
        let top = Classifier::classes_for(entries);
        let ghost v = count_texts(top@);
        let mut classes: Vec<String> = Vec::new();
        let mut i: usize = 0;
        while i < top.len()
            invariant
                i <= top@.len(),
                classes@.len() == i,
                forall|j: int| 0 <= j < i ==> (#[trigger] classes@[j])@ == top@[j].0@,
            decreases top@.len() - i,
        {
            classes.push(top[i].0.clone());
            i = i + 1;
        }
        assert(texts(classes@) =~= Seq::new(v.len(), |j: int| v[j].0));
        let training = Classifier::candidates(entries, &classes);
        TrainingPlan { classes, training }
    }

    /// Prepares a training run on a sample of the files of a plan. `keys` are
    /// their sampling keys, and the version of the classifier follows `last`.
    pub fn train_planned(entries: &Vec<FileEntry>, plan: TrainingPlan, keys: &Vec<u64>, last: u64) -> (r:
        Option<Training>)
        requires
            plan.is_for(entries@),
            keys@.len() == plan.training@.len(),
        ensures
            exists|picked: Seq<usize>| #[trigger]
                is_training_sample(plan.training@, keys@, picked) && prepared(
                    entries@,
                    texts(plan.classes@),
                    picked,
                    last,
                    r,
                ),
    {
        let ghost classes = texts(plan.classes@);
        let ghost training = plan.training@;
        let picked = training_sample(plan.training, keys);
        let n: usize = entries.len();
        proof {
            assert forall|i: int| 0 <= i < picked@.len() implies (#[trigger] picked@[i])
                < entries@.len() && classes.contains(entries@[picked@[i] as int].parent@) by {
                if training.len() <= MAX_SAMPLES {
                    lemma_labelled(entries@, classes, n as int, i);
                } else {
                    let v = choose|v: Seq<usize>| #[trigger]
                        largest_keys(keys@, MAX_SAMPLES, v) && picked@ == v.map_values(
                            |i: usize| training[i as int],
                        );
                    let p = choose|p: Seq<usize>| #[trigger]
                        is_ranking(score_keys(keys@), p) && v == p.take(v.len() as int);
                    assert(v[i] == p[i]);
                    assert(picked@[i] == training[v[i] as int]);
                    lemma_labelled(entries@, classes, n as int, v[i] as int);
                }
            }
        }
        Classifier::train(entries, plan.classes, &picked, last)
    }
}

/// A sample that may be as large as the whole keeps everything, once.
pub proof fn law_large_sample_keeps_everything(keys: Seq<u64>, k: usize, v: Seq<usize>, x: usize)
    requires
        largest_keys(keys, k, v),
        keys.len() <= k,
        x < keys.len(),
    ensures
        v.len() == keys.len(),
        v.contains(x),
        v.no_duplicates(),
{
    let p = choose|p: Seq<usize>| #[trigger]
        is_ranking(score_keys(keys), p) && v == p.take(v.len() as int);
    assert(p.take(v.len() as int) =~= p);
    crate::rank::lemma_ranking_covers(score_keys(keys), p, x);
    assert forall|i: int, j: int| 0 <= i < v.len() && 0 <= j < v.len() && i != j implies v[i]
        != v[j] by {
        if i < j {
            assert(ranked_before(score_keys(keys), p[i], p[j]));
        } else {
            assert(ranked_before(score_keys(keys), p[j], p[i]));
        }
    }
}

/// No file outside a sample has a larger key than one inside it.
pub proof fn law_sample_holds_the_largest_keys(
    keys: Seq<u64>,
    k: usize,
    v: Seq<usize>,
    inside: usize,
    outside: usize,
)
    requires
        largest_keys(keys, k, v),
        keys.len() <= usize::MAX,
        v.contains(inside),
        outside < keys.len(),
        !v.contains(outside),
    ensures
        score_order(keys[outside as int]) <= score_order(keys[inside as int]),
{
    let p = choose|p: Seq<usize>| #[trigger]
        is_ranking(score_keys(keys), p) && v == p.take(v.len() as int);
    crate::rank::lemma_ranking_covers(score_keys(keys), p, outside);
    let a = choose|a: int| 0 <= a < v.len() && v[a] == inside;
    let b = choose|b: int| 0 <= b < p.len() && p[b] == outside;
    assert(p[a] == inside);
    if b < v.len() {
        assert(v[b] == outside);
    }
    assert(ranked_before(score_keys(keys), p[a], p[b]));
}

} // verus!
